//! A program as text, for those who read what the compiler made.

use crate::float::{shown, FactV, FloatTable};
use crate::ir::{fns_v, BinOp, Const, ConstV, Function, FunctionV, Instr, Program, ProgramV, UnOp};
use crate::sim::{pad_left, right_of};
use crate::text::{debug_of_text, debug_text, dec, dec_i64, dec_int, dec_u64};
use crate::value::{same_text, Ask, AskV, Try, TryV};
use vstd::prelude::*;
use vstd::string::*;

verus! {

/// The name of an operator of two operands.
pub open spec fn bin_name(op: BinOp) -> Seq<char> {
    match op {
        BinOp::Add => "Add"@,
        BinOp::Sub => "Sub"@,
        BinOp::Mul => "Mul"@,
        BinOp::Div => "Div"@,
        BinOp::Mod => "Mod"@,
        BinOp::Concat => "Concat"@,
        BinOp::Eq => "Eq"@,
        BinOp::Ne => "Ne"@,
        BinOp::Lt => "Lt"@,
        BinOp::Le => "Le"@,
        BinOp::Gt => "Gt"@,
        BinOp::Ge => "Ge"@,
    }
}

fn bin_str(op: BinOp) -> (r: &'static str)
    ensures
        r@ == bin_name(op),
{
    match op {
        BinOp::Add => "Add",
        BinOp::Sub => "Sub",
        BinOp::Mul => "Mul",
        BinOp::Div => "Div",
        BinOp::Mod => "Mod",
        BinOp::Concat => "Concat",
        BinOp::Eq => "Eq",
        BinOp::Ne => "Ne",
        BinOp::Lt => "Lt",
        BinOp::Le => "Le",
        BinOp::Gt => "Gt",
        BinOp::Ge => "Ge",
    }
}

/// A name with something in brackets.
pub open spec fn with_arg(name: Seq<char>, arg: Seq<char>) -> Seq<char> {
    name + "("@ + arg + ")"@
}

fn put_arg(name: &str, arg: &str) -> (r: String)
    ensures
        r@ == with_arg(name@, arg@),
{
    let mut s: String = name.to_owned();
    s.append("(");
    s.append(arg);
    s.append(")");
    s
}

/// An instruction as text: its name, with its operands in brackets.
pub open spec fn instr_text(i: Instr) -> Seq<char> {
    match i {
        Instr::Const(k) => with_arg("Const"@, dec(k as nat)),
        Instr::Nil => "Nil"@,
        Instr::True => "True"@,
        Instr::False => "False"@,
        Instr::LoadLocal(k) => with_arg("LoadLocal"@, dec(k as nat)),
        Instr::StoreLocal(k) => with_arg("StoreLocal"@, dec(k as nat)),
        Instr::LoadGlobal(k) => with_arg("LoadGlobal"@, dec(k as nat)),
        Instr::StoreGlobal(k) => with_arg("StoreGlobal"@, dec(k as nat)),
        Instr::MakeArray(k) => with_arg("MakeArray"@, dec(k as nat)),
        Instr::MakeMap(k) => with_arg("MakeMap"@, dec(k as nat)),
        Instr::GetIndex => "GetIndex"@,
        Instr::SetIndex => "SetIndex"@,
        Instr::GetField(k) => with_arg("GetField"@, dec(k as nat)),
        Instr::SetField(k) => with_arg("SetField"@, dec(k as nat)),
        Instr::BinOp(op) => with_arg("BinOp"@, bin_name(op)),
        Instr::UnOp(op) => with_arg(
            "UnOp"@,
            match op {
                UnOp::Not => "Not"@,
                UnOp::Neg => "Neg"@,
            },
        ),
        Instr::Jump(d) => with_arg("Jump"@, dec_int(d as int)),
        Instr::JumpIfFalse(d) => with_arg("JumpIfFalse"@, dec_int(d as int)),
        Instr::Dup => "Dup"@,
        Instr::Pop => "Pop"@,
        Instr::Call(n) => with_arg("Call"@, dec(n as nat)),
        Instr::Closure(k, n) => with_arg("Closure"@, dec(k as nat) + ", "@ + dec(n as nat)),
        Instr::IterNew => "IterNew"@,
        Instr::IterNext(d) => with_arg("IterNext"@, dec_int(d as int)),
        Instr::Return => "Return"@,
        Instr::At(k) => with_arg("At"@, dec(k as nat)),
        Instr::Cast(k) => with_arg("Cast"@, dec(k as nat)),
        Instr::Spawn => "Spawn"@,
        Instr::Session => "Session"@,
        Instr::User => "User"@,
    }
}

fn num(name: &str, k: u64) -> (r: String)
    ensures
        r@ == with_arg(name@, dec(k as nat)),
{
    let d: String = dec_u64(k);
    put_arg(name, d.as_str())
}

fn offset(name: &str, d: i32) -> (r: String)
    ensures
        r@ == with_arg(name@, dec_int(d as int)),
{
    let t: String = dec_i64(d as i64);
    put_arg(name, t.as_str())
}

fn write_instr(i: Instr) -> (r: String)
    ensures
        r@ == instr_text(i),
{
    match i {
        Instr::Const(k) => num("Const", k as u64),
        Instr::Nil => "Nil".to_owned(),
        Instr::True => "True".to_owned(),
        Instr::False => "False".to_owned(),
        Instr::LoadLocal(k) => num("LoadLocal", k as u64),
        Instr::StoreLocal(k) => num("StoreLocal", k as u64),
        Instr::LoadGlobal(k) => num("LoadGlobal", k as u64),
        Instr::StoreGlobal(k) => num("StoreGlobal", k as u64),
        Instr::MakeArray(k) => num("MakeArray", k as u64),
        Instr::MakeMap(k) => num("MakeMap", k as u64),
        Instr::GetIndex => "GetIndex".to_owned(),
        Instr::SetIndex => "SetIndex".to_owned(),
        Instr::GetField(k) => num("GetField", k as u64),
        Instr::SetField(k) => num("SetField", k as u64),
        Instr::BinOp(op) => put_arg("BinOp", bin_str(op)),
        Instr::UnOp(op) => put_arg(
            "UnOp",
            match op {
                UnOp::Not => "Not",
                UnOp::Neg => "Neg",
            },
        ),
        Instr::Jump(d) => offset("Jump", d),
        Instr::JumpIfFalse(d) => offset("JumpIfFalse", d),
        Instr::Dup => "Dup".to_owned(),
        Instr::Pop => "Pop".to_owned(),
        Instr::Call(n) => num("Call", n as u64),
        Instr::Closure(k, n) => {
            let mut s: String = dec_u64(k as u64);
            s.append(", ");
            let t: String = dec_u64(n as u64);
            s.append(t.as_str());
            put_arg("Closure", s.as_str())
        },
        Instr::IterNew => "IterNew".to_owned(),
        Instr::IterNext(d) => offset("IterNext", d),
        Instr::Return => "Return".to_owned(),
        Instr::At(k) => num("At", k as u64),
        Instr::Cast(k) => num("Cast", k as u64),
        Instr::Spawn => "Spawn".to_owned(),
        Instr::Session => "Session".to_owned(),
        Instr::User => "User".to_owned(),
    }
}

/// A constant as text.
pub open spec fn const_text(f: Seq<FactV>, c: ConstV) -> TryV<Seq<char>> {
    match c {
        ConstV::Str(s) => TryV::Done(debug_of_text(s)),
        ConstV::Int(i) => TryV::Done(dec_int(i as int)),
        ConstV::Float(b) => match shown(f, b) {
            Some(s) => TryV::Done(s),
            None => TryV::Need(AskV::Show(b)),
        },
    }
}

/// The text constant `k`, behind `sign`.
pub open spec fn name_note(cs: Seq<ConstV>, k: u32, sign: Seq<char>) -> TryV<Seq<char>> {
    if (k as int) < cs.len() {
        match cs[k as int] {
            ConstV::Str(s) => TryV::Done(sign + s),
            _ => TryV::Fail("corrupt program"@),
        }
    } else {
        TryV::Fail("corrupt program"@)
    }
}

/// What is noted beside an instruction: the constant that it names.
pub open spec fn note_of(f: Seq<FactV>, cs: Seq<ConstV>, i: Instr) -> TryV<Seq<char>> {
    match i {
        Instr::Const(k) => if (k as int) < cs.len() {
            match const_text(f, cs[k as int]) {
                TryV::Done(s) => TryV::Done("  ; "@ + s),
                other => other,
            }
        } else {
            TryV::Fail("corrupt program"@)
        },
        Instr::LoadGlobal(k) => name_note(cs, k, "  ; "@),
        Instr::StoreGlobal(k) => name_note(cs, k, "  ; "@),
        Instr::GetField(k) => name_note(cs, k, "  ; ."@),
        Instr::SetField(k) => name_note(cs, k, "  ; ."@),
        Instr::At(k) => name_note(cs, k, "  ; "@),
        Instr::Cast(k) => name_note(cs, k, "  ; "@),
        _ => TryV::Done(Seq::empty()),
    }
}

impl Program {
    /// The constant `k`.
    pub fn const_value(&self, k: u32) -> (r: &Const)
        requires
            k < self.consts@.len(),
        ensures
            r@ == self@.consts[k as int],
    {
        &self.consts[k as usize]
    }

    /// The text constant `k`.
    pub fn const_str(&self, k: u32) -> (r: Option<&str>)
        ensures
            match r {
                Some(s) => crate::machine::text_const(self@, k) == Some(s@),
                None => crate::machine::text_const(self@, k) is None,
            },
    {
        if (k as usize) < self.consts.len() {
            assert(self@.consts[k as int] == self.consts@[k as int]@);
            match &self.consts[k as usize] {
                Const::Str(s) => Some(s.as_str()),
                _ => None,
            }
        } else {
            None
        }
    }

    fn write_name(&self, k: u32, sign: &str) -> (r: Try<String>)
        ensures
            same_text(r, name_note(self@.consts, k, sign@)),
    {
        match self.const_str(k) {
            Some(s) => {
                let mut t: String = sign.to_owned();
                t.append(s);
                Try::Done(t)
            },
            None => Try::Fail("corrupt program".to_owned()),
        }
    }

    fn write_note(&self, floats: &FloatTable, i: Instr) -> (r: Try<String>)
        ensures
            same_text(r, note_of(floats@, self@.consts, i)),
    {
        match i {
            Instr::Const(k) => {
                if (k as usize) >= self.consts.len() {
                    return Try::Fail("corrupt program".to_owned());
                }
                assert(self@.consts[k as int] == self.consts@[k as int]@);
                let mut t: String = "  ; ".to_owned();
                match &self.consts[k as usize] {
                    Const::Str(s) => {
                        let d: String = debug_text(s.as_str());
                        t.append(d.as_str());
                    },
                    Const::Int(n) => {
                        let d: String = dec_i64(*n);
                        t.append(d.as_str());
                    },
                    Const::Float(b) => match floats.shown(*b) {
                        Some(s) => {
                            t.append(s.as_str());
                        },
                        None => {
                            return Try::Need(Ask::Show(*b));
                        },
                    },
                }
                Try::Done(t)
            },
            Instr::LoadGlobal(k) => self.write_name(k, "  ; "),
            Instr::StoreGlobal(k) => self.write_name(k, "  ; "),
            Instr::GetField(k) => self.write_name(k, "  ; ."),
            Instr::SetField(k) => self.write_name(k, "  ; ."),
            Instr::At(k) => self.write_name(k, "  ; "),
            Instr::Cast(k) => self.write_name(k, "  ; "),
            _ => {
                let none: String = String::new();
                assert(none@ =~= Seq::<char>::empty());
                Try::Done(none)
            },
        }
    }

    fn write_code(&self, floats: &FloatTable, code: &Vec<Instr>) -> (r: Try<String>)
        ensures
            same_text(r, code_text(floats@, self@.consts, code@, code@.len() as int)),
    {
        let mut out: String = String::new();
        let mut i: usize = 0;
        assert(out@ =~= Seq::<char>::empty());
        while i < code.len()
            invariant
                i <= code@.len(),
                code_text(floats@, self@.consts, code@, i as int) == TryV::Done(out@),
            decreases code@.len() - i,
        {
            match self.write_note(floats, code[i]) {
                Try::Done(note) => {
                    let mut line: String = "  ".to_owned();
                    let pc: String = dec_u64(i as u64);
                    let pad: String = pad_left(pc.as_str(), 4);
                    line.append(pad.as_str());
                    line.append("  ");
                    let ins: String = write_instr(code[i]);
                    line.append(ins.as_str());
                    line.append(note.as_str());
                    line.append("\n");
                    out.append(line.as_str());
                },
                Try::Fail(m) => {
                    proof {
                        lemma_code_stop(floats@, self@.consts, code@, i + 1, code@.len() as int);
                    }
                    return Try::Fail(m);
                },
                Try::Need(q) => {
                    proof {
                        lemma_code_stop(floats@, self@.consts, code@, i + 1, code@.len() as int);
                    }
                    return Try::Need(q);
                },
            }
            i = i + 1;
        }
        Try::Done(out)
    }

    /// The program as text.
    pub fn listing(&self, floats: &FloatTable) -> (r: Try<String>)
        ensures
            same_text(r, listing_of(floats@, self@, self@.fns.len() as int)),
    {
        let ghost p = self@;
        let mut out: String = String::new();
        let mut i: usize = 0;
        assert(out@ =~= Seq::<char>::empty());
        while i < self.fns.len()
            invariant
                i <= self.fns@.len(),
                p == self@,
                p.fns == fns_v(self.fns@),
                listing_of(floats@, p, i as int) == TryV::Done(out@),
            decreases self.fns@.len() - i,
        {
            assert(p.fns[i as int] == self.fns@[i as int]@);
            let f: &Function = &self.fns[i];
            match self.write_code(floats, &f.code) {
                Try::Done(code) => {
                    let head: String = write_head(i, f);
                    out.append(head.as_str());
                    out.append(code.as_str());
                },
                Try::Fail(m) => {
                    proof {
                        lemma_listing_stop(floats@, p, i + 1, p.fns.len() as int);
                    }
                    return Try::Fail(m);
                },
                Try::Need(q) => {
                    proof {
                        lemma_listing_stop(floats@, p, i + 1, p.fns.len() as int);
                    }
                    return Try::Need(q);
                },
            }
            i = i + 1;
        }
        Try::Done(out)
    }
}

/// The lines of the first `n` instructions.
pub open spec fn code_text(f: Seq<FactV>, cs: Seq<ConstV>, code: Seq<Instr>, n: int) -> TryV<Seq<char>>
    decreases n,
{
    if n <= 0 || n > code.len() {
        TryV::Done(Seq::empty())
    } else {
        match code_text(f, cs, code, n - 1) {
            TryV::Done(s) => match note_of(f, cs, code[n - 1]) {
                TryV::Done(note) => TryV::Done(
                    s + ("  "@ + right_of(dec((n - 1) as nat), 4) + "  "@ + instr_text(code[n - 1])
                        + note + "\n"@),
                ),
                other => other,
            },
            other => other,
        }
    }
}

proof fn lemma_code_stop(f: Seq<FactV>, cs: Seq<ConstV>, code: Seq<Instr>, i: int, n: int)
    requires
        0 <= i <= n <= code.len(),
        !(code_text(f, cs, code, i) is Done),
    ensures
        code_text(f, cs, code, n) == code_text(f, cs, code, i),
    decreases n,
{
    if i < n {
        lemma_code_stop(f, cs, code, i, n - 1);
    }
}

/// The first line of a function.
pub open spec fn head_text(i: int, f: FunctionV) -> Seq<char> {
    "fn "@ + dec(i as nat) + " "@ + f.name + " (caps "@ + dec(f.n_caps as nat) + ", params "@ + dec(
        f.n_params as nat,
    ) + ", locals "@ + dec(f.n_locals as nat) + ")\n"@
}

fn write_head(i: usize, f: &Function) -> (r: String)
    ensures
        r@ == head_text(i as int, f@),
{
    let mut s: String = "fn ".to_owned();
    let n: String = dec_u64(i as u64);
    s.append(n.as_str());
    s.append(" ");
    s.append(f.name.as_str());
    s.append(" (caps ");
    let a: String = dec_u64(f.n_caps as u64);
    s.append(a.as_str());
    s.append(", params ");
    let b: String = dec_u64(f.n_params as u64);
    s.append(b.as_str());
    s.append(", locals ");
    let c: String = dec_u64(f.n_locals as u64);
    s.append(c.as_str());
    s.append(")\n");
    s
}

/// The first `n` functions as text.
pub open spec fn listing_of(f: Seq<FactV>, p: ProgramV, n: int) -> TryV<Seq<char>>
    decreases n,
{
    if n <= 0 || n > p.fns.len() {
        TryV::Done(Seq::empty())
    } else {
        match listing_of(f, p, n - 1) {
            TryV::Done(s) => {
                let fun = p.fns[n - 1];
                match code_text(f, p.consts, fun.code, fun.code.len() as int) {
                    TryV::Done(code) => TryV::Done(s + head_text(n - 1, fun) + code),
                    other => other,
                }
            },
            other => other,
        }
    }
}

proof fn lemma_listing_stop(f: Seq<FactV>, p: ProgramV, i: int, n: int)
    requires
        0 <= i <= n <= p.fns.len(),
        !(listing_of(f, p, i) is Done),
    ensures
        listing_of(f, p, n) == listing_of(f, p, i),
    decreases n,
{
    if i < n {
        lemma_listing_stop(f, p, i, n - 1);
    }
}

} // verus!
