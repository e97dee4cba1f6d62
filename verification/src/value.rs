//! Hop values.
//!
//! A closed set of kinds; `tagged` is the only extension mechanism; closures
//! are local to a machine and never data. NaN is not a value. Texts, bytes,
//! arrays, maps, tagged values and closures live in the cells of a heap, by
//! which two values can share an array or a map; a value holds the cell's
//! index.

use crate::bytes::{bytes_eq, bytes_lt, lex_lt};
use crate::float::{shown, FactV, FloatTable};
use crate::ir::BinOp;
use crate::ranking::{votes_v, Comparison, ComparisonV};
use crate::text::{
    dec, dec_i64, dec_int, dec_u64, debug_of_text, debug_text, text_before, text_eq, text_lt,
    texts,
};
use vstd::prelude::*;
use vstd::string::*;

verus! {

/// Built-in native functions of the language core.
#[derive(Clone, Copy, Debug, PartialEq, Eq, Structural)]
pub enum NativeId {
    Print,
    Error,
    Tostring,
    Tonumber,
    Push,
    Len,
    SortBy,
    Floor,
    TypeOf,
    ShapeMap,
    ShapeList,
    ShapeDeque,
    ShapeRecord,
    StoreCall,
    StoreOne,
    StoreEntries,
    StoreAppend,
    StoreItems,
    StoreVerify,
    NavWhere,
    NavSlice,
    NavSet,
    NavAdd,
    NavPush,
    DomGet,
    DomSet,
    DomClear,
    DomFocus,
    HuiRender,
}

/// The name of a native.
pub open spec fn native_name(id: NativeId) -> Seq<char> {
    match id {
        NativeId::Print => "Print"@,
        NativeId::Error => "Error"@,
        NativeId::Tostring => "Tostring"@,
        NativeId::Tonumber => "Tonumber"@,
        NativeId::Push => "Push"@,
        NativeId::Len => "Len"@,
        NativeId::SortBy => "SortBy"@,
        NativeId::Floor => "Floor"@,
        NativeId::TypeOf => "TypeOf"@,
        NativeId::ShapeMap => "ShapeMap"@,
        NativeId::ShapeList => "ShapeList"@,
        NativeId::ShapeDeque => "ShapeDeque"@,
        NativeId::ShapeRecord => "ShapeRecord"@,
        NativeId::StoreCall => "StoreCall"@,
        NativeId::StoreOne => "StoreOne"@,
        NativeId::StoreEntries => "StoreEntries"@,
        NativeId::StoreAppend => "StoreAppend"@,
        NativeId::StoreItems => "StoreItems"@,
        NativeId::StoreVerify => "StoreVerify"@,
        NativeId::NavWhere => "NavWhere"@,
        NativeId::NavSlice => "NavSlice"@,
        NativeId::NavSet => "NavSet"@,
        NativeId::NavAdd => "NavAdd"@,
        NativeId::NavPush => "NavPush"@,
        NativeId::DomGet => "DomGet"@,
        NativeId::DomSet => "DomSet"@,
        NativeId::DomClear => "DomClear"@,
        NativeId::DomFocus => "DomFocus"@,
        NativeId::HuiRender => "HuiRender"@,
    }
}

/// The name of a native.
pub fn native_str(id: NativeId) -> (r: &'static str)
    ensures
        r@ == native_name(id),
{
    match id {
        NativeId::Print => "Print",
        NativeId::Error => "Error",
        NativeId::Tostring => "Tostring",
        NativeId::Tonumber => "Tonumber",
        NativeId::Push => "Push",
        NativeId::Len => "Len",
        NativeId::SortBy => "SortBy",
        NativeId::Floor => "Floor",
        NativeId::TypeOf => "TypeOf",
        NativeId::ShapeMap => "ShapeMap",
        NativeId::ShapeList => "ShapeList",
        NativeId::ShapeDeque => "ShapeDeque",
        NativeId::ShapeRecord => "ShapeRecord",
        NativeId::StoreCall => "StoreCall",
        NativeId::StoreOne => "StoreOne",
        NativeId::StoreEntries => "StoreEntries",
        NativeId::StoreAppend => "StoreAppend",
        NativeId::StoreItems => "StoreItems",
        NativeId::StoreVerify => "StoreVerify",
        NativeId::NavWhere => "NavWhere",
        NativeId::NavSlice => "NavSlice",
        NativeId::NavSet => "NavSet",
        NativeId::NavAdd => "NavAdd",
        NativeId::NavPush => "NavPush",
        NativeId::DomGet => "DomGet",
        NativeId::DomSet => "DomSet",
        NativeId::DomClear => "DomClear",
        NativeId::DomFocus => "DomFocus",
        NativeId::HuiRender => "HuiRender",
    }
}

/// The natives of the modules: functions, and effects that suspend the flow.
#[derive(Clone, Copy, Debug, PartialEq, Eq, Structural)]
pub enum LibId {
    JsonEncode,
    JsonDecode,
    JsonFirst,
    Markdown,
    Bash,
    LlmCall,
    LlmStream,
    LlmNext,
    LlmModels,
    RankScore,
    RankComponents,
    RankPlan,
    RankFinalize,
    RankProject,
    RankParseScore,
    RankHas,
    RankStrip,
    RankCut,
    RankBefore,
}

/// The surface name of a module native.
pub open spec fn lib_name(id: LibId) -> Seq<char> {
    match id {
        LibId::JsonEncode => "json.encode"@,
        LibId::JsonDecode => "json.decode"@,
        LibId::JsonFirst => "json.first"@,
        LibId::Markdown => "markdown"@,
        LibId::Bash => "bash"@,
        LibId::LlmCall => "llm.call"@,
        LibId::LlmStream => "llm.stream"@,
        LibId::LlmNext => "llm.next"@,
        LibId::LlmModels => "llm.models"@,
        LibId::RankScore => "rank.score"@,
        LibId::RankComponents => "rank.components"@,
        LibId::RankPlan => "rank.plan"@,
        LibId::RankFinalize => "rank.finalize"@,
        LibId::RankProject => "rank.project"@,
        LibId::RankParseScore => "rank.parse_score"@,
        LibId::RankHas => "rank.has"@,
        LibId::RankStrip => "rank.strip"@,
        LibId::RankCut => "rank.cut"@,
        LibId::RankBefore => "rank.before"@,
    }
}

/// The surface name of a module native.
pub fn lib_str(id: LibId) -> (r: &'static str)
    ensures
        r@ == lib_name(id),
{
    match id {
        LibId::JsonEncode => "json.encode",
        LibId::JsonDecode => "json.decode",
        LibId::JsonFirst => "json.first",
        LibId::Markdown => "markdown",
        LibId::Bash => "bash",
        LibId::LlmCall => "llm.call",
        LibId::LlmStream => "llm.stream",
        LibId::LlmNext => "llm.next",
        LibId::LlmModels => "llm.models",
        LibId::RankScore => "rank.score",
        LibId::RankComponents => "rank.components",
        LibId::RankPlan => "rank.plan",
        LibId::RankFinalize => "rank.finalize",
        LibId::RankProject => "rank.project",
        LibId::RankParseScore => "rank.parse_score",
        LibId::RankHas => "rank.has",
        LibId::RankStrip => "rank.strip",
        LibId::RankCut => "rank.cut",
        LibId::RankBefore => "rank.before",
    }
}

/// A value. The kinds with an index live in the heap.
#[derive(Clone, Copy, Debug, PartialEq, Eq, Structural)]
pub enum Value {
    Nil,
    Bool(bool),
    Int(i64),
    /// The IEEE 754 bits of a float; never NaN.
    Float(u64),
    Str(usize),
    Bytes(usize),
    Array(usize),
    Dict(usize),
    Tagged(usize),
    Closure(usize),
    Native(NativeId),
    Lib(LibId),
}

/// What a heap cell holds.
#[derive(Debug)]
pub enum Cell {
    Str(String),
    Bytes(Vec<u8>),
    Array(Vec<Value>),
    /// Entries in ascending key order.
    Dict(Vec<(Value, Value)>),
    Tagged(String, Value),
    /// A function and what it captured.
    Closure(usize, Vec<Value>),
}

pub enum CellV {
    Str(Seq<char>),
    Bytes(Seq<u8>),
    Array(Seq<Value>),
    Dict(Seq<(Value, Value)>),
    Tagged(Seq<char>, Value),
    Closure(usize, Seq<Value>),
}

impl View for Cell {
    type V = CellV;

    open spec fn view(&self) -> CellV {
        match *self {
            Cell::Str(s) => CellV::Str(s@),
            Cell::Bytes(b) => CellV::Bytes(b@),
            Cell::Array(v) => CellV::Array(v@),
            Cell::Dict(m) => CellV::Dict(m@),
            Cell::Tagged(t, v) => CellV::Tagged(t@, v),
            Cell::Closure(f, caps) => CellV::Closure(f, caps@),
        }
    }
}

/// The cells of a machine.
#[derive(Debug)]
pub struct Heap {
    pub cells: Vec<Cell>,
}

impl View for Heap {
    type V = Seq<CellV>;

    open spec fn view(&self) -> Seq<CellV> {
        self.cells@.map_values(|c: Cell| c@)
    }
}

/// The text in cell `i`; empty where it holds none.
pub open spec fn str_at(h: Seq<CellV>, i: usize) -> Seq<char> {
    if i < h.len() {
        match h[i as int] {
            CellV::Str(s) => s,
            _ => Seq::empty(),
        }
    } else {
        Seq::empty()
    }
}

/// The bytes in cell `i`; empty where it holds none.
pub open spec fn bytes_at(h: Seq<CellV>, i: usize) -> Seq<u8> {
    if i < h.len() {
        match h[i as int] {
            CellV::Bytes(s) => s,
            _ => Seq::empty(),
        }
    } else {
        Seq::empty()
    }
}

/// The items of the array in cell `i`; empty where it holds none.
pub open spec fn array_at(h: Seq<CellV>, i: usize) -> Seq<Value> {
    if i < h.len() {
        match h[i as int] {
            CellV::Array(s) => s,
            _ => Seq::empty(),
        }
    } else {
        Seq::empty()
    }
}

/// The entries of the map in cell `i`; empty where it holds none.
pub open spec fn map_at(h: Seq<CellV>, i: usize) -> Seq<(Value, Value)> {
    if i < h.len() {
        match h[i as int] {
            CellV::Dict(s) => s,
            _ => Seq::empty(),
        }
    } else {
        Seq::empty()
    }
}

/// The tag and payload in cell `i`; the empty tag of nil where it holds none.
pub open spec fn tagged_at(h: Seq<CellV>, i: usize) -> (Seq<char>, Value) {
    if i < h.len() {
        match h[i as int] {
            CellV::Tagged(t, v) => (t, v),
            _ => (Seq::empty(), Value::Nil),
        }
    } else {
        (Seq::empty(), Value::Nil)
    }
}

/// The function and captures in cell `i`, if it holds a closure.
pub open spec fn closure_at(h: Seq<CellV>, i: usize) -> Option<(usize, Seq<Value>)> {
    if i < h.len() {
        match h[i as int] {
            CellV::Closure(f, caps) => Some((f, caps)),
            _ => None,
        }
    } else {
        None
    }
}

/// `v` counts as true: all but nil and false.
pub open spec fn truthy(v: Value) -> bool {
    !(v is Nil) && v != Value::Bool(false)
}

/// The name of the kind of `v`.
pub open spec fn kind_of(v: Value) -> Seq<char> {
    match v {
        Value::Nil => "nil"@,
        Value::Bool(_) => "bool"@,
        Value::Int(_) => "int"@,
        Value::Float(_) => "float"@,
        Value::Str(_) => "string"@,
        Value::Bytes(_) => "bytes"@,
        Value::Array(_) => "array"@,
        Value::Dict(_) => "map"@,
        Value::Tagged(_) => "tagged"@,
        Value::Closure(_) => "closure"@,
        Value::Native(_) => "native"@,
        Value::Lib(_) => "native"@,
    }
}

/// The place of the kind of `v` in the order of kinds.
pub open spec fn rank_of(v: Value) -> int {
    match v {
        Value::Nil => 0,
        Value::Bool(_) => 1,
        Value::Int(_) => 2,
        Value::Float(_) => 3,
        Value::Str(_) => 4,
        Value::Bytes(_) => 5,
        Value::Array(_) => 6,
        Value::Dict(_) => 7,
        Value::Tagged(_) => 8,
        Value::Closure(_) => 9,
        Value::Native(_) => 10,
        Value::Lib(_) => 11,
    }
}

/// How two values stand to each other.
#[derive(Clone, Copy, Debug, PartialEq, Eq, Structural)]
pub enum Rel {
    Less,
    Equal,
    Greater,
}

pub open spec fn rel_int(a: int, b: int) -> Rel {
    if a < b {
        Rel::Less
    } else if a == b {
        Rel::Equal
    } else {
        Rel::Greater
    }
}

pub open spec fn rel_text(a: Seq<char>, b: Seq<char>) -> Rel {
    if a == b {
        Rel::Equal
    } else if text_before(a, b) {
        Rel::Less
    } else {
        Rel::Greater
    }
}

pub open spec fn rel_bytes(a: Seq<u8>, b: Seq<u8>) -> Rel {
    if a == b {
        Rel::Equal
    } else if lex_lt(a, b) {
        Rel::Less
    } else {
        Rel::Greater
    }
}

/// A number by which floats that are not NaN come in their order: the magnitude
/// bits, negative where the sign bit is set. Both zeros have the number 0.
pub open spec fn float_key(bits: u64) -> int {
    if bits < 0x8000_0000_0000_0000 {
        bits as int
    } else {
        0x8000_0000_0000_0000 - bits
    }
}

/// The bits are those of a NaN: all exponent bits set, and a fraction.
pub open spec fn is_nan(bits: u64) -> bool {
    bits % 0x8000_0000_0000_0000 > 0x7ff0_0000_0000_0000
}

/// The float with the other sign.
pub open spec fn negated(bits: u64) -> u64 {
    if bits < 0x8000_0000_0000_0000 {
        (bits + 0x8000_0000_0000_0000) as u64
    } else {
        (bits - 0x8000_0000_0000_0000) as u64
    }
}

/// How `a` stands to `b`: by kind, then within the kind; arrays and maps by
/// their items in turn. None where they nest deeper than `d`.
pub open spec fn compare(h: Seq<CellV>, d: nat, a: Value, b: Value) -> Option<Rel>
    decreases d, 0int, 0int,
{
    if rank_of(a) != rank_of(b) {
        Some(rel_int(rank_of(a), rank_of(b)))
    } else {
        match (a, b) {
            (Value::Bool(x), Value::Bool(y)) => Some(
                rel_int(if x { 1 } else { 0 }, if y { 1 } else { 0 }),
            ),
            (Value::Int(x), Value::Int(y)) => Some(rel_int(x as int, y as int)),
            (Value::Float(x), Value::Float(y)) => Some(rel_int(float_key(x), float_key(y))),
            (Value::Str(x), Value::Str(y)) => Some(rel_text(str_at(h, x), str_at(h, y))),
            (Value::Bytes(x), Value::Bytes(y)) => Some(rel_bytes(bytes_at(h, x), bytes_at(h, y))),
            (Value::Array(x), Value::Array(y)) => if x == y {
                Some(Rel::Equal)
            } else if d == 0 {
                None
            } else {
                compare_items(h, (d - 1) as nat, array_at(h, x), array_at(h, y), 0)
            },
            (Value::Dict(x), Value::Dict(y)) => if x == y {
                Some(Rel::Equal)
            } else if d == 0 {
                None
            } else {
                compare_entries(h, (d - 1) as nat, map_at(h, x), map_at(h, y), 0)
            },
            (Value::Tagged(x), Value::Tagged(y)) => if tagged_at(h, x).0 != tagged_at(h, y).0 {
                Some(rel_text(tagged_at(h, x).0, tagged_at(h, y).0))
            } else if d == 0 {
                None
            } else {
                compare(h, (d - 1) as nat, tagged_at(h, x).1, tagged_at(h, y).1)
            },
            (Value::Closure(x), Value::Closure(y)) => Some(rel_int(x as int, y as int)),
            (Value::Native(x), Value::Native(y)) => Some(rel_text(native_name(x), native_name(y))),
            (Value::Lib(x), Value::Lib(y)) => Some(rel_text(lib_name(x), lib_name(y))),
            _ => Some(Rel::Equal),
        }
    }
}

/// How the items of `xs` from `i` on stand to those of `ys`.
pub open spec fn compare_items(h: Seq<CellV>, d: nat, xs: Seq<Value>, ys: Seq<Value>, i: int) -> Option<
    Rel,
>
    decreases d, 1int, xs.len() - i,
{
    if i < 0 || i >= xs.len() || i >= ys.len() {
        Some(rel_int(xs.len() as int, ys.len() as int))
    } else {
        match compare(h, d, xs[i], ys[i]) {
            Some(Rel::Equal) => compare_items(h, d, xs, ys, i + 1),
            other => other,
        }
    }
}

/// How the entries of `xs` from `i` on stand to those of `ys`.
pub open spec fn compare_entries(
    h: Seq<CellV>,
    d: nat,
    xs: Seq<(Value, Value)>,
    ys: Seq<(Value, Value)>,
    i: int,
) -> Option<Rel>
    decreases d, 1int, xs.len() - i,
{
    if i < 0 || i >= xs.len() || i >= ys.len() {
        Some(rel_int(xs.len() as int, ys.len() as int))
    } else {
        match compare(h, d, xs[i].0, ys[i].0) {
            Some(Rel::Equal) => match compare(h, d, xs[i].1, ys[i].1) {
                Some(Rel::Equal) => compare_entries(h, d, xs, ys, i + 1),
                other => other,
            },
            other => other,
        }
    }
}

/// `v` may be a map key: a scalar, or a tagged scalar, tagged at most `d`
/// times.
pub open spec fn scalar(h: Seq<CellV>, d: nat, v: Value) -> bool
    decreases d,
{
    match v {
        Value::Nil => true,
        Value::Bool(_) => true,
        Value::Int(_) => true,
        Value::Float(_) => true,
        Value::Str(_) => true,
        Value::Bytes(_) => true,
        Value::Tagged(t) => d > 0 && scalar(h, (d - 1) as nat, tagged_at(h, t).1),
        _ => false,
    }
}

/// `v` may be a map key.
pub open spec fn is_scalar(h: Seq<CellV>, v: Value) -> bool {
    scalar(h, h.len(), v)
}

/// How key `a` stands to key `b`.
pub open spec fn key_rel(h: Seq<CellV>, a: Value, b: Value) -> Rel {
    match compare(h, h.len(), a, b) {
        Some(r) => r,
        None => Rel::Greater,
    }
}

/// The place of the first entry from `i` on whose key is not below `k`.
pub open spec fn entry_place(h: Seq<CellV>, m: Seq<(Value, Value)>, k: Value, i: int) -> int
    decreases m.len() - i,
{
    if i < 0 || i >= m.len() || key_rel(h, m[i].0, k) != Rel::Less {
        i
    } else {
        entry_place(h, m, k, i + 1)
    }
}

/// `m` has an entry for `k`.
pub open spec fn has_entry(h: Seq<CellV>, m: Seq<(Value, Value)>, k: Value) -> bool {
    let i = entry_place(h, m, k, 0);
    i < m.len() && key_rel(h, m[i].0, k) == Rel::Equal
}

/// The value for `k`; nil where there is none.
pub open spec fn entry_get(h: Seq<CellV>, m: Seq<(Value, Value)>, k: Value) -> Value {
    if has_entry(h, m, k) {
        m[entry_place(h, m, k, 0)].1
    } else {
        Value::Nil
    }
}

/// `m` with `v` for `k`.
pub open spec fn entry_put(h: Seq<CellV>, m: Seq<(Value, Value)>, k: Value, v: Value) -> Seq<
    (Value, Value),
> {
    let i = entry_place(h, m, k, 0);
    if has_entry(h, m, k) {
        m.update(i, (m[i].0, v))
    } else {
        m.insert(i, (k, v))
    }
}

/// `m` without an entry for `k`.
pub open spec fn entry_del(h: Seq<CellV>, m: Seq<(Value, Value)>, k: Value) -> Seq<(Value, Value)> {
    if has_entry(h, m, k) {
        m.remove(entry_place(h, m, k, 0))
    } else {
        m
    }
}

/// The place of the first entry from `i` on whose key is the text `name`.
pub open spec fn field_place(h: Seq<CellV>, m: Seq<(Value, Value)>, name: Seq<char>, i: int) -> int
    decreases m.len() - i,
{
    if i < 0 || i >= m.len() {
        i
    } else {
        match m[i].0 {
            Value::Str(s) => if str_at(h, s) == name {
                i
            } else {
                field_place(h, m, name, i + 1)
            },
            _ => field_place(h, m, name, i + 1),
        }
    }
}

/// The field `name` of `v`; nil where it is absent or `v` is no map.
pub open spec fn field_of(h: Seq<CellV>, v: Value, name: Seq<char>) -> Value {
    match v {
        Value::Dict(i) => {
            let m = map_at(h, i);
            let j = field_place(h, m, name, 0);
            if j < m.len() {
                m[j].1
            } else {
                Value::Nil
            }
        },
        _ => Value::Nil,
    }
}

/// The text of `v`, if it is one.
pub open spec fn text_of(h: Seq<CellV>, v: Value) -> Option<Seq<char>> {
    match v {
        Value::Str(i) => Some(str_at(h, i)),
        _ => None,
    }
}

/// A fact about floats that is wanted.
#[derive(Debug)]
pub enum Ask {
    Parse(String),
    Show(u64),
    Short(u64),
    Arith(BinOp, u64, u64),
    OfInt(i128),
    Floor(u64),
    /// The scores of votes on names, for each component in turn.
    Scores(Vec<String>, Vec<Comparison>),
}

pub enum AskV {
    Parse(Seq<char>),
    Show(u64),
    Short(u64),
    Arith(BinOp, u64, u64),
    OfInt(i128),
    Floor(u64),
    Scores(Seq<Seq<char>>, Seq<ComparisonV>),
}

impl View for Ask {
    type V = AskV;

    open spec fn view(&self) -> AskV {
        match *self {
            Ask::Parse(s) => AskV::Parse(s@),
            Ask::Show(b) => AskV::Show(b),
            Ask::Short(b) => AskV::Short(b),
            Ask::Arith(op, a, b) => AskV::Arith(op, a, b),
            Ask::OfInt(i) => AskV::OfInt(i),
            Ask::Floor(b) => AskV::Floor(b),
            Ask::Scores(ids, votes) => AskV::Scores(texts(ids@), votes_v(votes@)),
        }
    }
}

/// The outcome of a computation that may fail, or want a fact first.
pub enum Try<T> {
    Done(T),
    Fail(String),
    Need(Ask),
}

pub enum TryV<T> {
    Done(T),
    Fail(Seq<char>),
    Need(AskV),
}

pub open spec fn too_deep() -> Seq<char> {
    "value is nested too deeply"@
}

/// The diagnostic text of `v`: texts in quotes, arrays in `[]`, maps in `{}`.
pub open spec fn show(h: Seq<CellV>, f: Seq<FactV>, d: nat, v: Value) -> TryV<Seq<char>>
    decreases d, 0int, 0int,
{
    match v {
        Value::Nil => TryV::Done("nil"@),
        Value::Bool(b) => TryV::Done(if b { "true"@ } else { "false"@ }),
        Value::Int(i) => TryV::Done(dec_int(i as int)),
        Value::Float(b) => match shown(f, b) {
            Some(s) => TryV::Done(s),
            None => TryV::Need(AskV::Show(b)),
        },
        Value::Str(i) => TryV::Done(debug_of_text(str_at(h, i))),
        Value::Bytes(i) => TryV::Done("#bytes("@ + dec(bytes_at(h, i).len()) + ")"@),
        Value::Array(i) => if d == 0 {
            TryV::Fail(too_deep())
        } else {
            let xs = array_at(h, i);
            match show_items(h, f, (d - 1) as nat, xs, xs.len() as int) {
                TryV::Done(s) => TryV::Done("["@ + s + "]"@),
                other => other,
            }
        },
        Value::Dict(i) => if d == 0 {
            TryV::Fail(too_deep())
        } else {
            let m = map_at(h, i);
            match show_entries(h, f, (d - 1) as nat, m, m.len() as int) {
                TryV::Done(s) => TryV::Done("{"@ + s + "}"@),
                other => other,
            }
        },
        Value::Tagged(i) => if d == 0 {
            TryV::Fail(too_deep())
        } else {
            match show(h, f, (d - 1) as nat, tagged_at(h, i).1) {
                TryV::Done(s) => TryV::Done("#"@ + tagged_at(h, i).0 + " "@ + s),
                other => other,
            }
        },
        Value::Closure(i) => TryV::Done(
            "#closure(fn "@ + dec(
                match closure_at(h, i) {
                    Some((k, _)) => k as nat,
                    None => 0,
                },
            ) + ")"@,
        ),
        Value::Native(id) => TryV::Done("#native("@ + native_name(id) + ")"@),
        Value::Lib(id) => TryV::Done("#native("@ + lib_name(id) + ")"@),
    }
}

/// The texts of the first `n` items, with commas between them.
pub open spec fn show_items(h: Seq<CellV>, f: Seq<FactV>, d: nat, xs: Seq<Value>, n: int) -> TryV<
    Seq<char>,
>
    decreases d, 1int, n,
{
    if n <= 0 || n > xs.len() {
        TryV::Done(Seq::empty())
    } else {
        match show_items(h, f, d, xs, n - 1) {
            TryV::Done(s) => match show(h, f, d, xs[n - 1]) {
                TryV::Done(t) => TryV::Done(
                    if n == 1 {
                        s + t
                    } else {
                        s + ", "@ + t
                    },
                ),
                other => other,
            },
            other => other,
        }
    }
}

/// The text of a key: a text without quotes.
pub open spec fn show_key(h: Seq<CellV>, f: Seq<FactV>, d: nat, k: Value) -> TryV<Seq<char>>
    decreases d, 1int, 0int,
{
    match k {
        Value::Str(i) => TryV::Done(str_at(h, i)),
        _ => show(h, f, d, k),
    }
}

/// The texts of the first `n` entries, with commas between them.
pub open spec fn show_entries(
    h: Seq<CellV>,
    f: Seq<FactV>,
    d: nat,
    m: Seq<(Value, Value)>,
    n: int,
) -> TryV<Seq<char>>
    decreases d, 2int, n,
{
    if n <= 0 || n > m.len() {
        TryV::Done(Seq::empty())
    } else {
        match show_entries(h, f, d, m, n - 1) {
            TryV::Done(s) => match show_key(h, f, d, m[n - 1].0) {
                TryV::Done(k) => match show(h, f, d, m[n - 1].1) {
                    TryV::Done(t) => TryV::Done(
                        (if n == 1 {
                            s
                        } else {
                            s + ", "@
                        }) + k + ": "@ + t,
                    ),
                    other => other,
                },
                other => other,
            },
            other => other,
        }
    }
}

/// The text that `tostring` and `..` make of `v`: a text as it is, anything
/// else in diagnostic notation.
pub open spec fn coerced(h: Seq<CellV>, f: Seq<FactV>, v: Value) -> TryV<Seq<char>> {
    match v {
        Value::Str(i) => TryV::Done(str_at(h, i)),
        _ => show(h, f, h.len(), v),
    }
}

/// The computation gave the text that the model says.
pub open spec fn same_text(r: Try<String>, s: TryV<Seq<char>>) -> bool {
    match (r, s) {
        (Try::Done(x), TryV::Done(y)) => x@ == y,
        (Try::Fail(x), TryV::Fail(y)) => x@ == y,
        (Try::Need(x), TryV::Need(y)) => x@ == y,
        _ => false,
    }
}

impl Value {
    /// `self` counts as true.
    pub fn truthy(&self) -> (r: bool)
        ensures
            r == truthy(*self),
    {
        match self {
            Value::Nil => false,
            Value::Bool(b) => *b,
            _ => true,
        }
    }

    /// The name of the kind.
    pub fn kind(&self) -> (r: &'static str)
        ensures
            r@ == kind_of(*self),
    {
        match self {
            Value::Nil => "nil",
            Value::Bool(_) => "bool",
            Value::Int(_) => "int",
            Value::Float(_) => "float",
            Value::Str(_) => "string",
            Value::Bytes(_) => "bytes",
            Value::Array(_) => "array",
            Value::Dict(_) => "map",
            Value::Tagged(_) => "tagged",
            Value::Closure(_) => "closure",
            Value::Native(_) => "native",
            Value::Lib(_) => "native",
        }
    }

    /// The place of the kind in the order of kinds.
    fn kind_rank(&self) -> (r: u8)
        ensures
            r == rank_of(*self),
    {
        match self {
            Value::Nil => 0,
            Value::Bool(_) => 1,
            Value::Int(_) => 2,
            Value::Float(_) => 3,
            Value::Str(_) => 4,
            Value::Bytes(_) => 5,
            Value::Array(_) => 6,
            Value::Dict(_) => 7,
            Value::Tagged(_) => 8,
            Value::Closure(_) => 9,
            Value::Native(_) => 10,
            Value::Lib(_) => 11,
        }
    }

    /// The integer, if it is one.
    pub fn as_int(&self) -> (r: Option<i64>)
        ensures
            r == (match *self {
                Value::Int(i) => Some(i),
                _ => None,
            }),
    {
        match self {
            Value::Int(i) => Some(*i),
            _ => None,
        }
    }

    /// A float by its bits; NaN is not a value.
    pub fn float(bits: u64) -> (r: Result<Value, String>)
        ensures
            match r {
                Ok(v) => !is_nan(bits) && v == Value::Float(bits),
                Err(m) => is_nan(bits) && m@ == "NaN is not a value"@,
            },
    {
        if bits % 0x8000_0000_0000_0000 > 0x7ff0_0000_0000_0000 {
            Err("NaN is not a value".to_owned())
        } else {
            Ok(Value::Float(bits))
        }
    }
}

fn rel_of_i128(a: i128, b: i128) -> (r: Rel)
    ensures
        r == rel_int(a as int, b as int),
{
    if a < b {
        Rel::Less
    } else if a == b {
        Rel::Equal
    } else {
        Rel::Greater
    }
}

pub fn rel_of_text(a: &str, b: &str) -> (r: Rel)
    ensures
        r == rel_text(a@, b@),
{
    if text_eq(a, b) {
        Rel::Equal
    } else if text_lt(a, b) {
        Rel::Less
    } else {
        Rel::Greater
    }
}

fn rel_of_bytes(a: &[u8], b: &[u8]) -> (r: Rel)
    ensures
        r == rel_bytes(a@, b@),
{
    if bytes_eq(a, b) {
        Rel::Equal
    } else if bytes_lt(a, b) {
        Rel::Less
    } else {
        Rel::Greater
    }
}

/// How two floats that are not NaN stand to each other.
pub fn rel_of_floats(x: u64, y: u64) -> (r: Rel)
    ensures
        r == rel_int(float_key(x), float_key(y)),
{
    let a: i128 = if x < 0x8000_0000_0000_0000 {
        x as i128
    } else {
        0x8000_0000_0000_0000i128 - x as i128
    };
    let b: i128 = if y < 0x8000_0000_0000_0000 {
        y as i128
    } else {
        0x8000_0000_0000_0000i128 - y as i128
    };
    rel_of_i128(a, b)
}

impl Heap {
    pub fn new() -> (r: Heap)
        ensures
            r@ == Seq::<CellV>::empty(),
    {
        let r = Heap { cells: Vec::new() };
        assert(r@ =~= Seq::<CellV>::empty());
        r
    }

    /// Puts `c` in a new cell.
    pub fn put(&mut self, c: Cell) -> (i: usize)
        ensures
            final(self)@ == old(self)@.push(c@),
            i == old(self)@.len(),
    {
        let i: usize = self.cells.len();
        self.cells.push(c);
        assert(self@ =~= old(self)@.push(c@));
        i
    }

    /// A new text.
    pub fn str(&mut self, s: &str) -> (v: Value)
        ensures
            final(self)@ == old(self)@.push(CellV::Str(s@)),
            v == Value::Str(old(self)@.len() as usize),
    {
        let i: usize = self.put(Cell::Str(s.to_owned()));
        Value::Str(i)
    }

    /// A new array.
    pub fn array(&mut self, items: Vec<Value>) -> (v: Value)
        ensures
            final(self)@ == old(self)@.push(CellV::Array(items@)),
            v == Value::Array(old(self)@.len() as usize),
    {
        let i: usize = self.put(Cell::Array(items));
        Value::Array(i)
    }

    /// A new map with the given entries, which are in ascending key order.
    pub fn map(&mut self, entries: Vec<(Value, Value)>) -> (v: Value)
        ensures
            final(self)@ == old(self)@.push(CellV::Dict(entries@)),
            v == Value::Dict(old(self)@.len() as usize),
    {
        let i: usize = self.put(Cell::Dict(entries));
        Value::Dict(i)
    }

    /// A new tagged value.
    pub fn tagged(&mut self, tag: &str, payload: Value) -> (v: Value)
        ensures
            final(self)@ == old(self)@.push(CellV::Tagged(tag@, payload)),
            v == Value::Tagged(old(self)@.len() as usize),
    {
        let i: usize = self.put(Cell::Tagged(tag.to_owned(), payload));
        Value::Tagged(i)
    }

    /// The text in cell `i`.
    pub fn str_at(&self, i: usize) -> (r: &str)
        ensures
            r@ == str_at(self@, i),
    {
        if i < self.cells.len() {
            assert(self@[i as int] == self.cells@[i as int]@);
            if let Cell::Str(s) = &self.cells[i] {
                return s.as_str();
            }
        }
        proof {
            reveal_strlit("");
            assert(""@ =~= Seq::<char>::empty());
        }
        ""
    }

    /// The items of the array in cell `i`.
    pub fn items_at(&self, i: usize) -> (r: Option<&Vec<Value>>)
        ensures
            match r {
                Some(v) => v@ == array_at(self@, i) && i < self@.len() && self@[i as int]
                    == CellV::Array(v@),
                None => array_at(self@, i) == Seq::<Value>::empty() && !(i < self@.len()
                    && self@[i as int] is Array),
            },
    {
        if i < self.cells.len() {
            assert(self@[i as int] == self.cells@[i as int]@);
            if let Cell::Array(s) = &self.cells[i] {
                return Some(s);
            }
        }
        None
    }

    /// The entries of the map in cell `i`.
    pub fn entries_at(&self, i: usize) -> (r: Option<&Vec<(Value, Value)>>)
        ensures
            match r {
                Some(v) => v@ == map_at(self@, i) && i < self@.len() && self@[i as int]
                    == CellV::Dict(v@),
                None => map_at(self@, i) == Seq::<(Value, Value)>::empty() && !(i < self@.len()
                    && self@[i as int] is Dict),
            },
    {
        if i < self.cells.len() {
            assert(self@[i as int] == self.cells@[i as int]@);
            if let Cell::Dict(s) = &self.cells[i] {
                return Some(s);
            }
        }
        None
    }

    /// A copy of the items of the array in cell `i`.
    pub fn items(&self, i: usize) -> (r: Vec<Value>)
        ensures
            r@ == array_at(self@, i),
    {
        match self.items_at(i) {
            Some(v) => copy_values(v),
            None => Vec::new(),
        }
    }

    /// A copy of the entries of the map in cell `i`.
    pub fn entries(&self, i: usize) -> (r: Vec<(Value, Value)>)
        ensures
            r@ == map_at(self@, i),
    {
        match self.entries_at(i) {
            Some(v) => copy_entries(v),
            None => Vec::new(),
        }
    }

    /// The bytes in cell `i`.
    pub fn bytes(&self, i: usize) -> (r: Vec<u8>)
        ensures
            r@ == bytes_at(self@, i),
    {
        if i < self.cells.len() {
            assert(self@[i as int] == self.cells@[i as int]@);
            if let Cell::Bytes(s) = &self.cells[i] {
                return crate::bytes::copy_bytes(s.as_slice());
            }
        }
        Vec::new()
    }

    /// The tag and payload in cell `i`.
    pub fn tagged_at(&self, i: usize) -> (r: (&str, Value))
        ensures
            (r.0@, r.1) == tagged_at(self@, i),
    {
        if i < self.cells.len() {
            assert(self@[i as int] == self.cells@[i as int]@);
            if let Cell::Tagged(t, v) = &self.cells[i] {
                return (t.as_str(), *v);
            }
        }
        proof {
            reveal_strlit("");
            assert(""@ =~= Seq::<char>::empty());
        }
        ("", Value::Nil)
    }

    /// The function and captures in cell `i`.
    pub fn closure_at(&self, i: usize) -> (r: Option<(usize, &Vec<Value>)>)
        ensures
            match (r, closure_at(self@, i)) {
                (Some((f, caps)), Some((g, cs))) => f == g && caps@ == cs,
                (None, None) => true,
                _ => false,
            },
    {
        if i < self.cells.len() {
            assert(self@[i as int] == self.cells@[i as int]@);
            if let Cell::Closure(f, caps) = &self.cells[i] {
                return Some((*f, caps));
            }
        }
        None
    }

    /// The text of `v`, if it is one.
    pub fn as_str(&self, v: Value) -> (r: Option<&str>)
        ensures
            match (r, text_of(self@, v)) {
                (Some(s), Some(t)) => s@ == t,
                (None, None) => true,
                _ => false,
            },
    {
        match v {
            Value::Str(i) => Some(self.str_at(i)),
            _ => None,
        }
    }

    /// How `a` stands to `b`.
    pub fn compare(&self, d: usize, a: Value, b: Value) -> (r: Option<Rel>)
        ensures
            r == compare(self@, d as nat, a, b),
        decreases d, 0int, 0int,
    {
        let ra: u8 = a.kind_rank();
        let rb: u8 = b.kind_rank();
        if ra != rb {
            return Some(rel_of_i128(ra as i128, rb as i128));
        }
        match (a, b) {
            (Value::Bool(x), Value::Bool(y)) => {
                let p: i128 = if x { 1 } else { 0 };
                let q: i128 = if y { 1 } else { 0 };
                Some(rel_of_i128(p, q))
            },
            (Value::Int(x), Value::Int(y)) => Some(rel_of_i128(x as i128, y as i128)),
            (Value::Float(x), Value::Float(y)) => Some(rel_of_floats(x, y)),
            (Value::Str(x), Value::Str(y)) => Some(rel_of_text(self.str_at(x), self.str_at(y))),
            (Value::Bytes(x), Value::Bytes(y)) => {
                let p: Vec<u8> = self.bytes(x);
                let q: Vec<u8> = self.bytes(y);
                Some(rel_of_bytes(p.as_slice(), q.as_slice()))
            },
            (Value::Array(x), Value::Array(y)) => {
                if x == y {
                    return Some(Rel::Equal);
                }
                if d == 0 {
                    return None;
                }
                let xs: Vec<Value> = self.items(x);
                let ys: Vec<Value> = self.items(y);
                self.compare_items(d - 1, &xs, &ys)
            },
            (Value::Dict(x), Value::Dict(y)) => {
                if x == y {
                    return Some(Rel::Equal);
                }
                if d == 0 {
                    return None;
                }
                let xs: Vec<(Value, Value)> = self.entries(x);
                let ys: Vec<(Value, Value)> = self.entries(y);
                self.compare_entries(d - 1, &xs, &ys)
            },
            (Value::Tagged(x), Value::Tagged(y)) => {
                let (s, p) = self.tagged_at(x);
                let (t, q) = self.tagged_at(y);
                if !text_eq(s, t) {
                    Some(rel_of_text(s, t))
                } else if d == 0 {
                    None
                } else {
                    self.compare(d - 1, p, q)
                }
            },
            (Value::Closure(x), Value::Closure(y)) => Some(rel_of_i128(x as i128, y as i128)),
            (Value::Native(x), Value::Native(y)) => Some(
                rel_of_text(native_str(x), native_str(y)),
            ),
            (Value::Lib(x), Value::Lib(y)) => Some(rel_of_text(lib_str(x), lib_str(y))),
            _ => Some(Rel::Equal),
        }
    }

    fn compare_items(&self, d: usize, xs: &Vec<Value>, ys: &Vec<Value>) -> (r: Option<Rel>)
        ensures
            r == compare_items(self@, d as nat, xs@, ys@, 0),
        decreases d, 1int, 0int,
    {
        let mut i: usize = 0;
        while i < xs.len() && i < ys.len()
            invariant
                i <= xs@.len(),
                compare_items(self@, d as nat, xs@, ys@, 0) == compare_items(
                    self@,
                    d as nat,
                    xs@,
                    ys@,
                    i as int,
                ),
            decreases xs@.len() - i,
        {
            match self.compare(d, xs[i], ys[i]) {
                Some(Rel::Equal) => {},
                other => {
                    return other;
                },
            }
            i = i + 1;
        }
        Some(rel_of_i128(xs.len() as i128, ys.len() as i128))
    }

    fn compare_entries(&self, d: usize, xs: &Vec<(Value, Value)>, ys: &Vec<(Value, Value)>) -> (r:
        Option<Rel>)
        ensures
            r == compare_entries(self@, d as nat, xs@, ys@, 0),
        decreases d, 1int, 0int,
    {
        let mut i: usize = 0;
        while i < xs.len() && i < ys.len()
            invariant
                i <= xs@.len(),
                compare_entries(self@, d as nat, xs@, ys@, 0) == compare_entries(
                    self@,
                    d as nat,
                    xs@,
                    ys@,
                    i as int,
                ),
            decreases xs@.len() - i,
        {
            match self.compare(d, xs[i].0, ys[i].0) {
                Some(Rel::Equal) => {},
                other => {
                    return other;
                },
            }
            match self.compare(d, xs[i].1, ys[i].1) {
                Some(Rel::Equal) => {},
                other => {
                    return other;
                },
            }
            i = i + 1;
        }
        Some(rel_of_i128(xs.len() as i128, ys.len() as i128))
    }

    fn scalar(&self, d: usize, v: Value) -> (r: bool)
        ensures
            r == scalar(self@, d as nat, v),
        decreases d,
    {
        match v {
            Value::Nil
            | Value::Bool(_)
            | Value::Int(_)
            | Value::Float(_)
            | Value::Str(_)
            | Value::Bytes(_) => true,
            Value::Tagged(t) => {
                if d == 0 {
                    return false;
                }
                let (_, p) = self.tagged_at(t);
                self.scalar(d - 1, p)
            },
            _ => false,
        }
    }

    /// `v` may be a map key.
    pub fn is_scalar(&self, v: Value) -> (r: bool)
        ensures
            r == is_scalar(self@, v),
    {
        self.scalar(self.cells.len(), v)
    }

    fn key_rel(&self, a: Value, b: Value) -> (r: Rel)
        ensures
            r == key_rel(self@, a, b),
    {
        match self.compare(self.cells.len(), a, b) {
            Some(r) => r,
            None => Rel::Greater,
        }
    }

    fn entry_place(&self, m: &Vec<(Value, Value)>, k: Value) -> (i: usize)
        ensures
            i == entry_place(self@, m@, k, 0),
            i <= m@.len(),
    {
        let mut i: usize = 0;
        while i < m.len()
            invariant
                i <= m@.len(),
                entry_place(self@, m@, k, 0) == entry_place(self@, m@, k, i as int),
            decreases m@.len() - i,
        {
            match self.key_rel(m[i].0, k) {
                Rel::Less => {},
                _ => {
                    return i;
                },
            }
            i = i + 1;
        }
        i
    }

    /// The value for `k` in `m`.
    pub fn entry_get(&self, m: &Vec<(Value, Value)>, k: Value) -> (r: Value)
        ensures
            r == entry_get(self@, m@, k),
    {
        let i: usize = self.entry_place(m, k);
        if i < m.len() {
            if let Rel::Equal = self.key_rel(m[i].0, k) {
                return m[i].1;
            }
        }
        Value::Nil
    }

    /// Sets the value for `k` in `m`.
    pub fn entry_put(&self, m: &mut Vec<(Value, Value)>, k: Value, v: Value)
        ensures
            final(m)@ == entry_put(self@, old(m)@, k, v),
    {
        let i: usize = self.entry_place(m, k);
        if i < m.len() {
            let had: Value = m[i].0;
            if let Rel::Equal = self.key_rel(had, k) {
                m.set(i, (had, v));
                return;
            }
        }
        m.insert(i, (k, v));
    }

    /// Removes the entry for `k` from `m`.
    pub fn entry_del(&self, m: &mut Vec<(Value, Value)>, k: Value)
        ensures
            final(m)@ == entry_del(self@, old(m)@, k),
    {
        let i: usize = self.entry_place(m, k);
        if i < m.len() {
            if let Rel::Equal = self.key_rel(m[i].0, k) {
                m.remove(i);
            }
        }
    }

    fn field_place(&self, m: &Vec<(Value, Value)>, name: &str) -> (i: usize)
        ensures
            i == field_place(self@, m@, name@, 0),
    {
        let mut i: usize = 0;
        while i < m.len()
            invariant
                i <= m@.len(),
                field_place(self@, m@, name@, 0) == field_place(self@, m@, name@, i as int),
            decreases m@.len() - i,
        {
            if let Value::Str(s) = m[i].0 {
                if text_eq(self.str_at(s), name) {
                    return i;
                }
            }
            i = i + 1;
        }
        i
    }

    /// The field `name` of `v`.
    pub fn get_field(&self, v: Value, name: &str) -> (r: Value)
        ensures
            r == field_of(self@, v, name@),
    {
        match v {
            Value::Dict(c) => match self.entries_at(c) {
                Some(m) => {
                    let i: usize = self.field_place(m, name);
                    if i < m.len() {
                        m[i].1
                    } else {
                        Value::Nil
                    }
                },
                None => Value::Nil,
            },
            _ => Value::Nil,
        }
    }

    /// The diagnostic text of `v`.
    pub fn show(&self, floats: &FloatTable, d: usize, v: Value) -> (r: Try<String>)
        ensures
            same_text(r, show(self@, floats@, d as nat, v)),
        decreases d, 0int, 0int,
    {
        match v {
            Value::Nil => Try::Done("nil".to_owned()),
            Value::Bool(b) => if b {
                Try::Done("true".to_owned())
            } else {
                Try::Done("false".to_owned())
            },
            Value::Int(i) => Try::Done(dec_i64(i)),
            Value::Float(b) => match floats.shown(b) {
                Some(s) => Try::Done(s),
                None => Try::Need(Ask::Show(b)),
            },
            Value::Str(i) => Try::Done(debug_text(self.str_at(i))),
            Value::Bytes(i) => {
                let b: Vec<u8> = self.bytes(i);
                let n: String = dec_u64(b.len() as u64);
                let mut s: String = "#bytes(".to_owned();
                s.append(n.as_str());
                s.append(")");
                Try::Done(s)
            },
            Value::Array(i) => {
                if d == 0 {
                    return Try::Fail("value is nested too deeply".to_owned());
                }
                let xs: Vec<Value> = self.items(i);
                match self.show_items(floats, d - 1, &xs) {
                    Try::Done(t) => {
                        let mut s: String = "[".to_owned();
                        s.append(t.as_str());
                        s.append("]");
                        Try::Done(s)
                    },
                    other => other,
                }
            },
            Value::Dict(i) => {
                if d == 0 {
                    return Try::Fail("value is nested too deeply".to_owned());
                }
                let m: Vec<(Value, Value)> = self.entries(i);
                match self.show_entries(floats, d - 1, &m) {
                    Try::Done(t) => {
                        let mut s: String = "{".to_owned();
                        s.append(t.as_str());
                        s.append("}");
                        Try::Done(s)
                    },
                    other => other,
                }
            },
            Value::Tagged(i) => {
                if d == 0 {
                    return Try::Fail("value is nested too deeply".to_owned());
                }
                let (tag, p) = self.tagged_at(i);
                match self.show(floats, d - 1, p) {
                    Try::Done(t) => {
                        let mut s: String = "#".to_owned();
                        s.append(tag);
                        s.append(" ");
                        s.append(t.as_str());
                        Try::Done(s)
                    },
                    other => other,
                }
            },
            Value::Closure(i) => {
                let k: usize = match self.closure_at(i) {
                    Some((k, _)) => k,
                    None => 0,
                };
                let n: String = dec_u64(k as u64);
                let mut s: String = "#closure(fn ".to_owned();
                s.append(n.as_str());
                s.append(")");
                Try::Done(s)
            },
            Value::Native(id) => {
                let mut s: String = "#native(".to_owned();
                s.append(native_str(id));
                s.append(")");
                Try::Done(s)
            },
            Value::Lib(id) => {
                let mut s: String = "#native(".to_owned();
                s.append(lib_str(id));
                s.append(")");
                Try::Done(s)
            },
        }
    }

    fn show_items(&self, floats: &FloatTable, d: usize, xs: &Vec<Value>) -> (r: Try<String>)
        ensures
            same_text(r, show_items(self@, floats@, d as nat, xs@, xs@.len() as int)),
        decreases d, 1int, 0int,
    {
        let mut s: String = String::new();
        let mut i: usize = 0;
        while i < xs.len()
            invariant
                i <= xs@.len(),
                show_items(self@, floats@, d as nat, xs@, i as int) == TryV::Done(s@),
            decreases xs@.len() - i,
        {
            match self.show(floats, d, xs[i]) {
                Try::Done(t) => {
                    if i > 0 {
                        s.append(", ");
                    }
                    s.append(t.as_str());
                },
                other => {
                    proof {
                        lemma_show_items_stop(
                            self@,
                            floats@,
                            d as nat,
                            xs@,
                            i + 1,
                            xs@.len() as int,
                        );
                    }
                    return other;
                },
            }
            i = i + 1;
        }
        Try::Done(s)
    }

    fn show_key(&self, floats: &FloatTable, d: usize, k: Value) -> (r: Try<String>)
        ensures
            same_text(r, show_key(self@, floats@, d as nat, k)),
        decreases d, 1int, 0int,
    {
        match k {
            Value::Str(c) => Try::Done(self.str_at(c).to_owned()),
            _ => self.show(floats, d, k),
        }
    }

    fn show_entries(&self, floats: &FloatTable, d: usize, m: &Vec<(Value, Value)>) -> (r: Try<
        String,
    >)
        ensures
            same_text(r, show_entries(self@, floats@, d as nat, m@, m@.len() as int)),
        decreases d, 2int, 0int,
    {
        let mut s: String = String::new();
        let mut i: usize = 0;
        while i < m.len()
            invariant
                i <= m@.len(),
                show_entries(self@, floats@, d as nat, m@, i as int) == TryV::Done(s@),
            decreases m@.len() - i,
        {
            match self.show_key(floats, d, m[i].0) {
                Try::Done(k) => match self.show(floats, d, m[i].1) {
                    Try::Done(t) => {
                        if i > 0 {
                            s.append(", ");
                        }
                        s.append(k.as_str());
                        s.append(": ");
                        s.append(t.as_str());
                    },
                    other => {
                        proof {
                            lemma_show_entries_stop(
                                self@,
                                floats@,
                                d as nat,
                                m@,
                                i + 1,
                                m@.len() as int,
                            );
                        }
                        return other;
                    },
                },
                other => {
                    proof {
                        lemma_show_entries_stop(
                            self@,
                            floats@,
                            d as nat,
                            m@,
                            i + 1,
                            m@.len() as int,
                        );
                    }
                    return other;
                },
            }
            i = i + 1;
        }
        Try::Done(s)
    }

    /// The text that `tostring` and `..` make of `v`.
    pub fn coerce_str(&self, floats: &FloatTable, v: Value) -> (r: Try<String>)
        ensures
            same_text(r, coerced(self@, floats@, v)),
    {
        match v {
            Value::Str(i) => Try::Done(self.str_at(i).to_owned()),
            _ => self.show(floats, self.cells.len(), v),
        }
    }
}

proof fn lemma_show_items_stop(
    h: Seq<CellV>,
    f: Seq<FactV>,
    d: nat,
    xs: Seq<Value>,
    i: int,
    n: int,
)
    requires
        0 <= i <= n <= xs.len(),
        !(show_items(h, f, d, xs, i) is Done),
    ensures
        show_items(h, f, d, xs, n) == show_items(h, f, d, xs, i),
    decreases n,
{
    if i < n {
        lemma_show_items_stop(h, f, d, xs, i, n - 1);
    }
}

proof fn lemma_show_entries_stop(
    h: Seq<CellV>,
    f: Seq<FactV>,
    d: nat,
    m: Seq<(Value, Value)>,
    i: int,
    n: int,
)
    requires
        0 <= i <= n <= m.len(),
        !(show_entries(h, f, d, m, i) is Done),
    ensures
        show_entries(h, f, d, m, n) == show_entries(h, f, d, m, i),
    decreases n,
{
    if i < n {
        lemma_show_entries_stop(h, f, d, m, i, n - 1);
    }
}

/// A copy of `v`.
pub fn copy_values(v: &Vec<Value>) -> (r: Vec<Value>)
    ensures
        r@ == v@,
{
    let mut r: Vec<Value> = Vec::new();
    let mut i: usize = 0;
    while i < v.len()
        invariant
            i <= v@.len(),
            r@ == v@.take(i as int),
        decreases v@.len() - i,
    {
        r.push(v[i]);
        assert(r@ =~= v@.take(i + 1));
        i = i + 1;
    }
    assert(v@.take(i as int) =~= v@);
    r
}

/// A copy of `v`.
pub fn copy_entries(v: &Vec<(Value, Value)>) -> (r: Vec<(Value, Value)>)
    ensures
        r@ == v@,
{
    let mut r: Vec<(Value, Value)> = Vec::new();
    let mut i: usize = 0;
    while i < v.len()
        invariant
            i <= v@.len(),
            r@ == v@.take(i as int),
        decreases v@.len() - i,
    {
        r.push((v[i].0, v[i].1));
        assert(r@ =~= v@.take(i + 1));
        i = i + 1;
    }
    assert(v@.take(i as int) =~= v@);
    r
}

} // verus!
