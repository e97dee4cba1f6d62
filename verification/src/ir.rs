//! Hop IR: a stack machine that the compiler targets and the interpreter runs.
//!
//! A program is a set of functions. Named functions are `.hop` functions;
//! segment functions carry the stable hop ids (`add_todo:1`, `f:l1:2`, `f:c1`)
//! minted by mark-splitting. All machines load the identical program; the wire
//! carries ids and data, never code.

use crate::names::NameMap;
use vstd::prelude::*;

verus! {

#[derive(Clone, Copy, Debug, PartialEq, Eq, Structural)]
pub enum BinOp {
    Add,
    Sub,
    Mul,
    Div,
    Mod,
    Concat,
    Eq,
    Ne,
    Lt,
    Le,
    Gt,
    Ge,
}

#[derive(Clone, Copy, Debug, PartialEq, Eq, Structural)]
pub enum UnOp {
    Not,
    Neg,
}

#[derive(Clone, Copy, Debug, PartialEq, Eq, Structural)]
pub enum Instr {
    /// Push a constant from the pool.
    Const(u32),
    Nil,
    True,
    False,
    LoadLocal(u16),
    StoreLocal(u16),
    /// Globals are named; the name is a string constant.
    LoadGlobal(u32),
    StoreGlobal(u32),
    /// Pop n values: an array of them in push order.
    MakeArray(u16),
    /// Pop n (key, value) pairs: a map. Keys are scalar.
    MakeMap(u16),
    /// obj key: the value (arrays by 0-based index, maps by scalar key; nil
    /// when absent).
    GetIndex,
    /// obj key value: nothing (an index at the length grows an array; nil
    /// deletes a map key).
    SetIndex,
    /// obj: the field of the map by string constant.
    GetField(u32),
    /// obj value: nothing.
    SetField(u32),
    BinOp(BinOp),
    UnOp(UnOp),
    Jump(i32),
    JumpIfFalse(i32),
    Dup,
    Pop,
    /// callee a1..an: the result.
    Call(u8),
    /// Captures on the stack: a closure over the function.
    Closure(u32, u8),
    /// iterable: an iterator.
    IterNew,
    /// iter index: iter index+1 key value, or a jump when exhausted.
    IterNext(i32),
    Return,
    /// target vars: suspend; the reply is pushed on resume. The hop id is a
    /// string constant.
    At(u32),
    /// target vars: nothing (fire and forget).
    Cast(u32),
    /// callee args: nothing (a new flow on this machine).
    Spawn,
    /// The session identity (browser: its own; server: the flow's origin).
    Session,
    /// The durable identity behind the session.
    User,
}

/// A constant: a text, an integer, or a float by its IEEE 754 bits.
#[derive(Debug)]
pub enum Const {
    Str(String),
    Int(i64),
    Float(u64),
}

pub enum ConstV {
    Str(Seq<char>),
    Int(i64),
    Float(u64),
}

impl View for Const {
    type V = ConstV;

    open spec fn view(&self) -> ConstV {
        match *self {
            Const::Str(s) => ConstV::Str(s@),
            Const::Int(i) => ConstV::Int(i),
            Const::Float(b) => ConstV::Float(b),
        }
    }
}

#[derive(Debug)]
pub struct Function {
    pub name: String,
    /// Captured values become locals `[0..n_caps)`.
    pub n_caps: u8,
    /// Params become locals `[n_caps..n_caps+n_params)`.
    pub n_params: u8,
    pub n_locals: u16,
    pub code: Vec<Instr>,
}

pub struct FunctionV {
    pub name: Seq<char>,
    pub n_caps: u8,
    pub n_params: u8,
    pub n_locals: u16,
    pub code: Seq<Instr>,
}

impl View for Function {
    type V = FunctionV;

    open spec fn view(&self) -> FunctionV {
        FunctionV {
            name: self.name@,
            n_caps: self.n_caps,
            n_params: self.n_params,
            n_locals: self.n_locals,
            code: self.code@,
        }
    }
}

#[derive(Debug)]
pub struct Program {
    pub consts: Vec<Const>,
    pub fns: Vec<Function>,
    /// Hop id to segment function.
    pub hops: NameMap<usize>,
    /// Global name to named function.
    pub named: NameMap<usize>,
    /// `server let` initializers: global name and thunk, in declaration order.
    pub server_lets: Vec<(String, usize)>,
}

pub struct ProgramV {
    pub consts: Seq<ConstV>,
    pub fns: Seq<FunctionV>,
    pub hops: Map<Seq<char>, usize>,
    pub named: Map<Seq<char>, usize>,
    pub server_lets: Seq<(Seq<char>, usize)>,
}

pub open spec fn consts_v(v: Seq<Const>) -> Seq<ConstV> {
    v.map_values(|c: Const| c@)
}

pub open spec fn fns_v(v: Seq<Function>) -> Seq<FunctionV> {
    v.map_values(|f: Function| f@)
}

pub open spec fn lets_v(v: Seq<(String, usize)>) -> Seq<(Seq<char>, usize)> {
    v.map_values(|p: (String, usize)| (p.0@, p.1))
}

impl View for Program {
    type V = ProgramV;

    open spec fn view(&self) -> ProgramV {
        ProgramV {
            consts: consts_v(self.consts@),
            fns: fns_v(self.fns@),
            hops: self.hops@,
            named: self.named@,
            server_lets: lets_v(self.server_lets@),
        }
    }
}

} // verus!
