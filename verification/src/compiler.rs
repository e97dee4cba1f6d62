//! Compiles `.hop` source to Hop IR.
//!
//! ```text
//! item  := "server" "let" name "=" expr ";"        server-side global
//!        | "fn" name "(" params ")" block
//! stmt  := "let" name "=" expr ";"
//!        | "server" "!" "(" ")" ";"                placement mark
//!        | "browser" "!" "(" ")" ";"               placement mark (to the origin)
//!        | "cast" ("browsers"|"server"|("session"|"user") "(" expr ")") block
//!        | "spawn" call ";"                        start a flow (an "event")
//!        | "return" expr? ";"
//!        | "if" expr block ("else" (block|if))?
//!        | "match" expr "{" arm* "}"               dispatch on expr.type
//!        | "for" k "," v "in" expr block           k = index (0-based) / key
//!        | "while" expr block
//!        | lvalue "=" expr ";"                     assignment
//!        | expr ";"
//! arm   := name ("{" field ("," field)* ","? "}")? "=>" block
//!        | "else" "=>" block                       optional, must be last
//! expr  := ... | ":name"                           keyword: a string literal
//!        | "fn" "(" params ")" block               lambda; may contain marks
//! ```
//!
//! The body of a marked function splits into segments at the marks; the first
//! becomes the origin function, each later one a function registered under a
//! stable hop id (`name:i`) and chained by the `At` instruction. What crosses
//! each hop is settled here: the variables in scope before the mark that the
//! remainder references. Cast bodies compile the same way under `name:cN` ids,
//! the marked remainders of lambdas under `name:lN:i` ids.

use crate::ast::{
    arms_v, exprs_v, fields_v, lemma_arms, lemma_exprs, lemma_fields, lemma_stmts, stmts_v,
    BinaryOp, CastTarget, Expr, ExprV, Item, ItemV, MatchArm, MatchArmV, Side, Stmt, StmtV,
};
use crate::float::{FactV, FloatTable};
use crate::grammar::p_items;
use crate::ir::{
    consts_v, fns_v, lets_v, BinOp, Const, ConstV, Function, Instr, Program, ProgramV, UnOp,
};
use crate::lexer::{lex, lex_from, Tok};
use crate::liveness::{
    check_no_nested_marks, refs_of, refs_stmts, segments_v, split_segments, toplevel_lets, Segment,
    SegmentV,
};
use crate::lowering::{
    all_patched, captures, const_from, cut_scope, emitted, finished, fresh, function_of, hop_target,
    hop_to, jump_back, jump_by, loaded, low_arms, low_block, low_expr, low_exprs, low_fields,
    low_flow, low_item, low_items, low_lambda, low_segment, low_segments, low_stmt, low_stmts,
    low_target, new_body, next_count, no_program, patched, pooled, program_of, push_str, scope_end,
    scope_set, ship_of, slot_of, str_ix, unpacked, vars_map, vars_pushed, with_locals, with_str,
    CgV, ChainV, FbV, GenV,
};
use crate::names::{has_name, in_order, NameMap, NameSet};
use crate::parser::{items_v, Parser};
use crate::text::{chars_of, dec_u64, parse_int, text_eq, texts};
use vstd::prelude::*;
use vstd::string::*;

verus! {

/// The program so far.
pub struct Cg {
    pub consts: Vec<Const>,
    pub fns: Vec<Function>,
    pub hops: NameMap<usize>,
    pub named: NameMap<usize>,
    pub server_lets: Vec<(String, usize)>,
}

impl View for Cg {
    type V = CgV;

    open spec fn view(&self) -> CgV {
        CgV {
            consts: consts_v(self.consts@),
            fns: fns_v(self.fns@),
            hops: self.hops@,
            named: self.named@,
            server_lets: lets_v(self.server_lets@),
        }
    }
}

/// Two constants are the same.
fn same_const(a: &Const, b: &Const) -> (r: bool)
    ensures
        r == (a@ == b@),
{
    match (a, b) {
        (Const::Str(x), Const::Str(y)) => text_eq(x.as_str(), y.as_str()),
        (Const::Int(x), Const::Int(y)) => *x == *y,
        (Const::Float(x), Const::Float(y)) => *x == *y,
        _ => false,
    }
}

impl Cg {
    pub open spec fn wf(&self) -> bool {
        self.hops.wf() && self.named.wf()
    }

    pub fn new() -> (r: Cg)
        ensures
            r.wf(),
            r@ == no_program(),
    {
        let r = Cg {
            consts: Vec::new(),
            fns: Vec::new(),
            hops: NameMap::new(),
            named: NameMap::new(),
            server_lets: Vec::new(),
        };
        assert(r@.consts =~= no_program().consts);
        assert(r@.fns =~= no_program().fns);
        assert(r@.server_lets =~= no_program().server_lets);
        r
    }

    /// The pool index of `c`, which is added where the pool does not hold it.
    fn pool(&mut self, c: Const) -> (k: u32)
        ensures
            final(self)@ == pooled(old(self)@, c@),
            k == const_from(old(self)@.consts, c@, 0) as u32,
            final(self).hops == old(self).hops,
            final(self).named == old(self).named,
    {
        let mut i: usize = 0;
        while i < self.consts.len()
            invariant
                *self == *old(self),
                i <= self.consts@.len(),
                const_from(self@.consts, c@, 0) == const_from(self@.consts, c@, i as int),
            decreases self.consts@.len() - i,
        {
            assert(self@.consts[i as int] == self.consts@[i as int]@);
            if same_const(&self.consts[i], &c) {
                return i as u32;
            }
            i = i + 1;
        }
        let ghost before = self.consts@;
        let ghost cv = c@;
        self.consts.push(c);
        assert(consts_v(self.consts@) =~= consts_v(before).push(cv));
        i as u32
    }

    /// The pool index of the text `s`.
    pub fn k_str(&mut self, s: &str) -> (k: u32)
        ensures
            final(self)@ == pooled(old(self)@, ConstV::Str(s@)),
            k == const_from(old(self)@.consts, ConstV::Str(s@), 0) as u32,
            final(self).hops == old(self).hops,
            final(self).named == old(self).named,
    {
        self.pool(Const::Str(s.to_owned()))
    }

    /// The pool index of the integer `n`.
    pub fn k_int(&mut self, n: i64) -> (k: u32)
        ensures
            final(self)@ == pooled(old(self)@, ConstV::Int(n)),
            k == const_from(old(self)@.consts, ConstV::Int(n), 0) as u32,
            final(self).hops == old(self).hops,
            final(self).named == old(self).named,
    {
        self.pool(Const::Int(n))
    }

    /// The pool index of the float with the bits `bits`.
    pub fn k_float(&mut self, bits: u64) -> (k: u32)
        ensures
            final(self)@ == pooled(old(self)@, ConstV::Float(bits)),
            k == const_from(old(self)@.consts, ConstV::Float(bits), 0) as u32,
            final(self).hops == old(self).hops,
            final(self).named == old(self).named,
    {
        self.pool(Const::Float(bits))
    }

    /// Adds a function.
    pub fn add_fn(&mut self, f: Function) -> (k: usize)
        ensures
            final(self)@ == (CgV { fns: old(self)@.fns.push(f@), ..old(self)@ }),
            k == old(self)@.fns.len(),
            final(self).hops == old(self).hops,
            final(self).named == old(self).named,
    {
        let k: usize = self.fns.len();
        let ghost before = self.fns@;
        let ghost fv = f@;
        self.fns.push(f);
        assert(fns_v(self.fns@) =~= fns_v(before).push(fv));
        k
    }
}

/// One function body being emitted.
pub struct Fb {
    pub name: String,
    pub scope: Vec<(String, u16)>,
    pub n_locals: u16,
    pub n_caps: u8,
    pub n_params: u8,
    pub code: Vec<Instr>,
}

pub open spec fn scope_v(v: Seq<(String, u16)>) -> Seq<(Seq<char>, u16)> {
    v.map_values(|p: (String, u16)| (p.0@, p.1))
}

impl View for Fb {
    type V = FbV;

    open spec fn view(&self) -> FbV {
        FbV {
            name: self.name@,
            scope: scope_v(self.scope@),
            n_locals: self.n_locals,
            n_caps: self.n_caps,
            n_params: self.n_params,
            code: self.code@,
        }
    }
}

impl Fb {
    pub fn new(name: &str) -> (r: Fb)
        ensures
            r@ == new_body(name@),
    {
        let r = Fb {
            name: name.to_owned(),
            scope: Vec::new(),
            n_locals: 0,
            n_caps: 0,
            n_params: 0,
            code: Vec::new(),
        };
        assert(r@.scope =~= new_body(name@).scope);
        assert(r@.code =~= new_body(name@).code);
        r
    }

    /// Gives the next slot to `name`.
    pub fn def_local(&mut self, name: &str) -> (slot: u16)
        requires
            old(self).n_locals < u16::MAX,
        ensures
            slot == old(self).n_locals,
            final(self)@ == (FbV {
                scope: old(self)@.scope.push((name@, slot)),
                n_locals: (slot + 1) as u16,
                ..old(self)@
            }),
    {
        let slot: u16 = self.n_locals;
        self.n_locals = slot + 1;
        let ghost before = self.scope@;
        self.scope.push((name.to_owned(), slot));
        assert(scope_v(self.scope@) =~= scope_v(before).push((name@, slot)));
        slot
    }

    /// Gives the next slot to a value without a name.
    pub fn hidden_local(&mut self) -> (slot: u16)
        requires
            old(self).n_locals < u16::MAX,
        ensures
            slot == old(self).n_locals,
            final(self)@ == (FbV { n_locals: (slot + 1) as u16, ..old(self)@ }),
    {
        let slot: u16 = self.n_locals;
        self.n_locals = slot + 1;
        slot
    }

    /// The slot of the innermost local called `name`.
    pub fn lookup(&self, name: &str) -> (r: Option<u16>)
        ensures
            r == slot_of(self@.scope, name@),
    {
        let mut n: usize = self.scope.len();
        assert(self@.scope.take(n as int) =~= self@.scope);
        while n > 0
            invariant
                n <= self.scope@.len(),
                slot_of(self@.scope, name@) == slot_of(self@.scope.take(n as int), name@),
            decreases n,
        {
            assert(self@.scope.take(n as int).drop_last() =~= self@.scope.take(n - 1));
            assert(self@.scope.take(n as int).last() == (
                self.scope@[n - 1].0@,
                self.scope@[n - 1].1,
            ));
            if text_eq(self.scope[n - 1].0.as_str(), name) {
                return Some(self.scope[n - 1].1);
            }
            n = n - 1;
        }
        None
    }

    /// The names in scope.
    pub fn scope_names(&self) -> (r: NameSet)
        ensures
            r.wf(),
            r@ == scope_set(self@.scope),
    {
        let mut r: NameSet = NameSet::new();
        let mut n: usize = 0;
        assert(r@ =~= scope_set(self@.scope.take(0)));
        while n < self.scope.len()
            invariant
                n <= self.scope@.len(),
                r.wf(),
                r@ == scope_set(self@.scope.take(n as int)),
            decreases self.scope@.len() - n,
        {
            r.insert(self.scope[n].0.as_str());
            proof {
                let t = self@.scope.take(n + 1);
                assert(t.drop_last() =~= self@.scope.take(n as int));
                assert(t.last() == (self.scope@[n as int].0@, self.scope@[n as int].1));
                assert(r@ =~= scope_set(t));
            }
            n = n + 1;
        }
        assert(self@.scope.take(n as int) =~= self@.scope);
        r
    }

    /// Cuts the scope back to its first `n` names.
    fn cut(&mut self, n: usize)
        ensures
            final(self)@ == (FbV {
                scope: if n <= old(self)@.scope.len() {
                    old(self)@.scope.take(n as int)
                } else {
                    old(self)@.scope
                },
                ..old(self)@
            }),
    {
        let ghost before = self.scope@;
        if n <= self.scope.len() {
            self.scope.truncate(n);
            assert(scope_v(self.scope@) =~= scope_v(before).take(n as int));
        }
    }

    /// Emits `i`.
    pub fn emit(&mut self, i: Instr)
        ensures
            final(self)@ == (FbV { code: old(self)@.code.push(i), ..old(self)@ }),
    {
        self.code.push(i);
    }

    /// Emits a jump to be patched; returns its place.
    pub fn jump_placeholder(&mut self, i: Instr) -> (at: usize)
        ensures
            at == old(self)@.code.len(),
            final(self)@ == (FbV { code: old(self)@.code.push(i), ..old(self)@ }),
    {
        let at: usize = self.code.len();
        self.code.push(i);
        at
    }

    /// Patches the jump at `at` to lead to the end of the code.
    pub fn patch_to_here(&mut self, at: usize)
        ensures
            final(self)@ == (FbV {
                code: if at < old(self)@.code.len() {
                    old(self)@.code.update(
                        at as int,
                        jump_by(
                            old(self)@.code[at as int],
                            (old(self)@.code.len() - at - 1) as i32,
                        ),
                    )
                } else {
                    old(self)@.code
                },
                ..old(self)@
            }),
    {
        if at < self.code.len() {
            let d: i32 = (self.code.len() as i128 - at as i128 - 1) as i32;
            let i: Instr = match self.code[at] {
                Instr::Jump(_) => Instr::Jump(d),
                Instr::JumpIfFalse(_) => Instr::JumpIfFalse(d),
                Instr::IterNext(_) => Instr::IterNext(d),
                other => other,
            };
            self.code.set(at, i);
        }
    }

    /// The finished function.
    pub fn into_function(self) -> (r: Function)
        ensures
            r@ == function_of(self@),
    {
        let least: u16 = self.n_caps as u16 + self.n_params as u16;
        Function {
            name: self.name,
            n_caps: self.n_caps,
            n_params: self.n_params,
            n_locals: if self.n_locals < least {
                least
            } else {
                self.n_locals
            },
            code: self.code,
        }
    }
}

/// The program, the body being emitted, and the counters for stable `name:cN`
/// and `name:lN` hop ids.
pub struct Gen {
    pub cg: Cg,
    pub fb: Fb,
    pub fn_name: String,
    pub cast_n: u32,
    pub lambda_n: u32,
}

impl View for Gen {
    type V = GenV;

    open spec fn view(&self) -> GenV {
        GenV {
            cg: self.cg@,
            fb: self.fb@,
            fn_name: self.fn_name@,
            cast_n: self.cast_n,
            lambda_n: self.lambda_n,
        }
    }
}

/// The emission did what the lowering says.
pub open spec fn done(r: Result<(), String>, s: Result<GenV, Seq<char>>, g: Gen) -> bool {
    match (r, s) {
        (Ok(_), Ok(v)) => g@ == v && g.cg.wf(),
        (Err(m), Err(w)) => m@ == w,
        _ => false,
    }
}

fn count(n: u32) -> (r: u32)
    ensures
        r == next_count(n),
{
    if n == u32::MAX {
        0
    } else {
        n + 1
    }
}

fn too_many<T>() -> (r: Result<T, String>)
    ensures
        r is Err,
        r->Err_0@ == crate::lowering::too_many(),
{
    Err("too many locals in one function".to_owned())
}

fn bad_number(n: &str) -> (r: Result<(), String>)
    ensures
        r is Err,
        r->Err_0@ == "bad number: "@ + n@,
{
    let mut m: String = "bad number: ".to_owned();
    m.append(n);
    Err(m)
}

/// The two parts, `sep` and the decimal text of `n` in one text.
fn joined(a: &str, sep: &str, n: u64) -> (r: String)
    ensures
        r@ == a@ + sep@ + crate::text::dec(n as nat),
{
    let mut r: String = a.to_owned();
    r.append(sep);
    let d: String = dec_u64(n);
    r.append(d.as_str());
    r
}

fn has_char(cs: &Vec<char>, c: char) -> (r: bool)
    ensures
        r == cs@.contains(c),
{
    let mut i: usize = 0;
    while i < cs.len()
        invariant
            i <= cs@.len(),
            forall|j: int| 0 <= j < i ==> cs@[j] != c,
        decreases cs@.len() - i,
    {
        if cs[i] == c {
            return true;
        }
        i = i + 1;
    }
    false
}

impl Gen {
    fn emit(&mut self, i: Instr)
        requires
            old(self).cg.wf(),
        ensures
            final(self).cg.wf(),
            final(self)@ == emitted(old(self)@, i),
    {
        self.fb.emit(i);
    }

    /// The pool index of the text `s`.
    fn name(&mut self, s: &str) -> (k: u32)
        requires
            old(self).cg.wf(),
        ensures
            final(self).cg.wf(),
            final(self)@ == with_str(old(self)@, s@),
            k == str_ix(old(self)@, s@),
    {
        self.cg.k_str(s)
    }

    /// Pushes the text `s`.
    fn push_str(&mut self, s: &str)
        requires
            old(self).cg.wf(),
        ensures
            final(self).cg.wf(),
            final(self)@ == push_str(old(self)@, s@),
    {
        let k: u32 = self.name(s);
        self.emit(Instr::Const(k));
    }

    fn placeholder(&mut self, i: Instr) -> (at: usize)
        requires
            old(self).cg.wf(),
        ensures
            final(self).cg.wf(),
            at == old(self)@.fb.code.len(),
            final(self)@ == emitted(old(self)@, i),
    {
        self.fb.jump_placeholder(i)
    }

    fn patch(&mut self, at: usize)
        requires
            old(self).cg.wf(),
        ensures
            final(self).cg.wf(),
            final(self)@ == patched(old(self)@, at as int),
    {
        self.fb.patch_to_here(at);
    }

    fn jump_back(&mut self, start: usize)
        requires
            old(self).cg.wf(),
        ensures
            final(self).cg.wf(),
            final(self)@ == jump_back(old(self)@, start as int),
    {
        let d: i32 = (start as i128 - self.fb.code.len() as i128 - 1) as i32;
        self.emit(Instr::Jump(d));
    }

    fn cut(&mut self, n: usize)
        requires
            old(self).cg.wf(),
        ensures
            final(self).cg.wf(),
            final(self)@ == cut_scope(old(self)@, n as int),
    {
        self.fb.cut(n);
    }

    /// Gives slots to `names`.
    fn locals(&mut self, names: &Vec<String>) -> (r: Result<(), String>)
        requires
            old(self).cg.wf(),
        ensures
            done(r, with_locals(old(self)@, texts(names@), names@.len() as int), *final(self)),
    {
        let mut i: usize = 0;
        while i < names.len()
            invariant
                i <= names@.len(),
                self.cg.wf(),
                with_locals(old(self)@, texts(names@), i as int) == Ok::<GenV, Seq<char>>(self@),
            decreases names@.len() - i,
        {
            assert(texts(names@)[i as int] == names@[i as int]@);
            if self.fb.n_locals == u16::MAX {
                proof {
                    lemma_locals_err(old(self)@, texts(names@), i + 1, names@.len() as int);
                }
                return too_many();
            }
            self.fb.def_local(names[i].as_str());
            i = i + 1;
        }
        Ok(())
    }

    /// Loads the fields `names` of the local in `slot` into locals.
    fn unpack(&mut self, slot: u16, names: &Vec<String>) -> (r: Result<(), String>)
        requires
            old(self).cg.wf(),
        ensures
            done(r, unpacked(old(self)@, slot, texts(names@), names@.len() as int), *final(self)),
    {
        let mut i: usize = 0;
        while i < names.len()
            invariant
                i <= names@.len(),
                self.cg.wf(),
                unpacked(old(self)@, slot, texts(names@), i as int) == Ok::<GenV, Seq<char>>(self@),
            decreases names@.len() - i,
        {
            assert(texts(names@)[i as int] == names@[i as int]@);
            self.emit(Instr::LoadLocal(slot));
            let k: u32 = self.name(names[i].as_str());
            self.emit(Instr::GetField(k));
            if self.fb.n_locals == u16::MAX {
                proof {
                    lemma_unpacked_err(old(self)@, slot, texts(names@), i + 1, names@.len() as int);
                }
                return too_many();
            }
            let at: u16 = self.fb.def_local(names[i].as_str());
            self.emit(Instr::StoreLocal(at));
            i = i + 1;
        }
        Ok(())
    }

    /// Builds the map `{ name = name, ... }` from locals.
    fn emit_vars_map(&mut self, names: &NameSet) -> (r: Result<(), String>)
        requires
            old(self).cg.wf(),
            names.wf(),
        ensures
            done(r, vars_map(old(self)@, names@), *final(self)),
    {
        let ghost s = texts(names.names@);
        proof {
            names.lemma_ordered();
        }
        let mut i: usize = 0;
        while i < names.names.len()
            invariant
                i <= names.names@.len(),
                self.cg.wf(),
                s == texts(names.names@),
                s == in_order(names@),
                vars_pushed(old(self)@, s, i as int) == Ok::<GenV, Seq<char>>(self@),
            decreases names.names@.len() - i,
        {
            let name = names.names[i].as_str();
            assert(s[i as int] == name@);
            self.push_str(name);
            match self.fb.lookup(name) {
                Some(slot) => {
                    self.emit(Instr::LoadLocal(slot));
                },
                None => {
                    let mut m: String = self.fb.name.clone();
                    m.append(": shipped var ");
                    m.append(name);
                    m.append(" is not in scope");
                    proof {
                        lemma_vars_err(old(self)@, s, i + 1, s.len() as int);
                    }
                    return Err(m);
                },
            }
            i = i + 1;
        }
        self.emit(Instr::MakeMap(names.names.len() as u16));
        Ok(())
    }

    /// Pushes the locals `names`.
    fn load(&mut self, names: &NameSet)
        requires
            old(self).cg.wf(),
            names.wf(),
        ensures
            final(self).cg.wf(),
            final(self)@ == loaded(
                old(self)@,
                texts(names.names@),
                names.names@.len() as int,
            ),
    {
        let ghost s = texts(names.names@);
        let mut i: usize = 0;
        while i < names.names.len()
            invariant
                i <= names.names@.len(),
                self.cg.wf(),
                s == texts(names.names@),
                loaded(old(self)@, s, i as int) == self@,
            decreases names.names@.len() - i,
        {
            let name = names.names[i].as_str();
            assert(s[i as int] == name@);
            if let Some(slot) = self.fb.lookup(name) {
                self.emit(Instr::LoadLocal(slot));
            }
            i = i + 1;
        }
    }

    /// Emits the target of a hop: the server, or the flow's origin session.
    fn emit_hop_target(&mut self, side: Side)
        requires
            old(self).cg.wf(),
        ensures
            final(self).cg.wf(),
            final(self)@ == hop_target(old(self)@, side),
    {
        match side {
            Side::Server => self.push_str("server"),
            Side::Browser => self.emit(Instr::Session),
        }
    }

    /// Emits a hop to `id` on `side` that ships `ship`.
    fn emit_hop(&mut self, side: Side, id: &str, ship: &NameSet) -> (r: Result<(), String>)
        requires
            old(self).cg.wf(),
            ship.wf(),
        ensures
            done(r, hop_to(old(self)@, side, id@, ship@), *final(self)),
    {
        self.emit_hop_target(side);
        self.emit_vars_map(ship)?;
        let k: u32 = self.name(id);
        self.emit(Instr::At(k));
        self.emit(Instr::Return);
        Ok(())
    }
}

proof fn lemma_locals_err(g: GenV, names: Seq<Seq<char>>, i: int, n: int)
    requires
        0 <= i <= n <= names.len(),
        with_locals(g, names, i) is Err,
    ensures
        with_locals(g, names, n) == with_locals(g, names, i),
    decreases n,
{
    if i < n {
        lemma_locals_err(g, names, i, n - 1);
    }
}

proof fn lemma_unpacked_err(g: GenV, slot: u16, names: Seq<Seq<char>>, i: int, n: int)
    requires
        0 <= i <= n <= names.len(),
        unpacked(g, slot, names, i) is Err,
    ensures
        unpacked(g, slot, names, n) == unpacked(g, slot, names, i),
    decreases n,
{
    if i < n {
        lemma_unpacked_err(g, slot, names, i, n - 1);
    }
}

proof fn lemma_vars_err(g: GenV, names: Seq<Seq<char>>, i: int, n: int)
    requires
        0 <= i <= n <= names.len(),
        vars_pushed(g, names, i) is Err,
    ensures
        vars_pushed(g, names, n) == vars_pushed(g, names, i),
    decreases n,
{
    if i < n {
        lemma_vars_err(g, names, i, n - 1);
    }
}

proof fn lemma_exprs_err(f: Seq<FactV>, g: GenV, es: Seq<ExprV>, i: int, n: int)
    requires
        0 <= i <= n <= es.len(),
        low_exprs(f, g, es, i) is Err,
    ensures
        low_exprs(f, g, es, n) == low_exprs(f, g, es, i),
    decreases n,
{
    if i < n {
        lemma_exprs_err(f, g, es, i, n - 1);
    }
}

proof fn lemma_fields_err(f: Seq<FactV>, g: GenV, fs: Seq<(Seq<char>, ExprV)>, i: int, n: int)
    requires
        0 <= i <= n <= fs.len(),
        low_fields(f, g, fs, i) is Err,
    ensures
        low_fields(f, g, fs, n) == low_fields(f, g, fs, i),
    decreases n,
{
    if i < n {
        lemma_fields_err(f, g, fs, i, n - 1);
    }
}

proof fn lemma_stmts_err(f: Seq<FactV>, g: GenV, ss: Seq<StmtV>, from: int, i: int, n: int)
    requires
        0 <= from <= i <= n <= ss.len(),
        low_stmts(f, g, ss, from, i) is Err,
    ensures
        low_stmts(f, g, ss, from, n) == low_stmts(f, g, ss, from, i),
    decreases n,
{
    if i < n {
        lemma_stmts_err(f, g, ss, from, i, n - 1);
    }
}

proof fn lemma_arms_err(f: Seq<FactV>, g: GenV, subj: u16, tag: u16, arms: Seq<MatchArmV>, i: int, n: int)
    requires
        0 <= i <= n <= arms.len(),
        low_arms(f, g, subj, tag, arms, i) is Err,
    ensures
        low_arms(f, g, subj, tag, arms, n) == low_arms(f, g, subj, tag, arms, i),
    decreases n,
{
    if i < n {
        lemma_arms_err(f, g, subj, tag, arms, i, n - 1);
    }
}

proof fn lemma_segments_err(f: Seq<FactV>, g: GenV, prefix: Seq<char>, body: Seq<StmtV>, segs: Seq<SegmentV>, base: Set<Seq<char>>, i: int, n: int)
    requires
        1 <= i <= n <= segs.len(),
        low_segments(f, g, prefix, body, segs, base, i) is Err,
    ensures
        low_segments(f, g, prefix, body, segs, base, n) == low_segments(f, g, prefix, body, segs, base, i),
    decreases n,
{
    if i < n {
        lemma_segments_err(f, g, prefix, body, segs, base, i, n - 1);
    }
}

proof fn lemma_items_err(f: Seq<FactV>, items: Seq<ItemV>, i: int, n: int)
    requires
        0 <= i <= n <= items.len(),
        low_items(f, items, i) is Err,
    ensures
        low_items(f, items, n) == low_items(f, items, i),
    decreases n,
{
    if i < n {
        lemma_items_err(f, items, i, n - 1);
    }
}

/// `e` is the identifier `name`.
fn is_ident(e: &Expr, name: &str) -> (r: bool)
    ensures
        r == (e@ == ExprV::Ident(name@)),
{
    match e {
        Expr::Ident(n) => text_eq(n.as_str(), name),
        _ => false,
    }
}

/// Emits code that leaves the value of `e` on the stack.
pub fn emit_expr(floats: &FloatTable, g: &mut Gen, e: &Expr) -> (r: Result<(), String>)
    requires
        old(g).cg.wf(),
    ensures
        done(r, low_expr(floats@, old(g)@, e@), *final(g)),
    decreases e, 0int, 0int,
{
    match e {
        Expr::Num(n) => {
            let cs: Vec<char> = chars_of(n.as_str());
            if has_char(&cs, '.') {
                match floats.parsed(n.as_str()) {
                    Some(Some(bits)) => {
                        let k: u32 = g.cg.k_float(bits);
                        g.emit(Instr::Const(k));
                    },
                    _ => {
                        return bad_number(n.as_str());
                    },
                }
            } else {
                match parse_int(cs.as_slice()) {
                    Some(i) => {
                        let k: u32 = g.cg.k_int(i);
                        g.emit(Instr::Const(k));
                    },
                    None => {
                        return bad_number(n.as_str());
                    },
                }
            }
        },
        Expr::Str(s) => {
            g.push_str(s.as_str());
        },
        Expr::Bool(b) => {
            g.emit(if *b { Instr::True } else { Instr::False });
        },
        Expr::Nil => {
            g.emit(Instr::Nil);
        },
        Expr::Ident(n) => match g.fb.lookup(n.as_str()) {
            Some(slot) => {
                g.emit(Instr::LoadLocal(slot));
            },
            None => {
                let k: u32 = g.name(n.as_str());
                g.emit(Instr::LoadGlobal(k));
            },
        },
        Expr::Field(b, name) => {
            emit_expr(floats, g, b)?;
            let k: u32 = g.name(name.as_str());
            g.emit(Instr::GetField(k));
        },
        Expr::Index(a, b) => {
            emit_expr(floats, g, a)?;
            emit_expr(floats, g, b)?;
            g.emit(Instr::GetIndex);
        },
        Expr::Call(c, args) => {
            proof {
                lemma_exprs(*args);
            }
            if args.len() == 0 {
                if is_ident(c, "session") {
                    g.emit(Instr::Session);
                    return Ok(());
                }
                if is_ident(c, "user") {
                    g.emit(Instr::User);
                    return Ok(());
                }
            }
            emit_expr(floats, g, c)?;
            emit_exprs(floats, g, args)?;
            g.emit(Instr::Call(args.len() as u8));
        },
        Expr::Unary(op, a) => {
            emit_expr(floats, g, a)?;
            g.emit(Instr::UnOp(*op));
        },
        Expr::Binary(op, a, b) => {
            emit_expr(floats, g, a)?;
            match op {
                BinaryOp::And => {
                    g.emit(Instr::Dup);
                    let j: usize = g.placeholder(Instr::JumpIfFalse(0));
                    g.emit(Instr::Pop);
                    emit_expr(floats, g, b)?;
                    g.patch(j);
                },
                BinaryOp::Or => {
                    g.emit(Instr::Dup);
                    g.emit(Instr::UnOp(UnOp::Not));
                    let j: usize = g.placeholder(Instr::JumpIfFalse(0));
                    g.emit(Instr::Pop);
                    emit_expr(floats, g, b)?;
                    g.patch(j);
                },
                BinaryOp::Plain(op) => {
                    emit_expr(floats, g, b)?;
                    g.emit(Instr::BinOp(*op));
                },
            }
        },
        Expr::Table(fs) => {
            proof {
                lemma_fields(*fs);
            }
            emit_fields(floats, g, fs)?;
            g.emit(Instr::MakeMap(fs.len() as u16));
        },
        Expr::Array(xs) => {
            proof {
                lemma_exprs(*xs);
            }
            emit_exprs(floats, g, xs)?;
            g.emit(Instr::MakeArray(xs.len() as u16));
        },
        Expr::Fn(params, body) => {
            return emit_lambda(floats, g, params, body);
        },
    }
    Ok(())
}

fn emit_exprs(floats: &FloatTable, g: &mut Gen, es: &Vec<Expr>) -> (r: Result<(), String>)
    requires
        old(g).cg.wf(),
    ensures
        done(r, low_exprs(floats@, old(g)@, exprs_v(*es), es@.len() as int), *final(g)),
    decreases es, 1int, 0int,
{
    let mut i: usize = 0;
    proof {
        lemma_exprs(*es);
    }
    while i < es.len()
        invariant
            i <= es@.len(),
            g.cg.wf(),
            exprs_v(*es).len() == es@.len(),
            forall|j: int| 0 <= j < es@.len() ==> #[trigger] exprs_v(*es)[j] == es@[j]@,
            low_exprs(floats@, old(g)@, exprs_v(*es), i as int) == Ok::<GenV, Seq<char>>(g@),
        decreases es@.len() - i,
    {
        let ghost e = exprs_v(*es)[i as int];
        let r: Result<(), String> = emit_expr(floats, g, &es[i]);
        if let Err(m) = r {
            proof {
                lemma_exprs_err(floats@, old(g)@, exprs_v(*es), i + 1, es@.len() as int);
            }
            return Err(m);
        }
        i = i + 1;
    }
    Ok(())
}

fn emit_fields(floats: &FloatTable, g: &mut Gen, fs: &Vec<(String, Expr)>) -> (r: Result<
    (),
    String,
>)
    requires
        old(g).cg.wf(),
    ensures
        done(r, low_fields(floats@, old(g)@, fields_v(*fs), fs@.len() as int), *final(g)),
    decreases fs, 1int, 0int,
{
    let mut i: usize = 0;
    proof {
        lemma_fields(*fs);
    }
    while i < fs.len()
        invariant
            i <= fs@.len(),
            g.cg.wf(),
            fields_v(*fs).len() == fs@.len(),
            forall|j: int|
                0 <= j < fs@.len() ==> #[trigger] fields_v(*fs)[j] == (fs@[j].0@, fs@[j].1@),
            low_fields(floats@, old(g)@, fields_v(*fs), i as int) == Ok::<GenV, Seq<char>>(g@),
        decreases fs@.len() - i,
    {
        let ghost e = fields_v(*fs)[i as int];
        g.push_str(fs[i].0.as_str());
        let r: Result<(), String> = emit_expr(floats, g, &fs[i].1);
        if let Err(m) = r {
            proof {
                lemma_fields_err(floats@, old(g)@, fields_v(*fs), i + 1, fs@.len() as int);
            }
            return Err(m);
        }
        i = i + 1;
    }
    Ok(())
}

/// The names of `refs` that `fb` has in scope and that are not among `hidden`.
fn bound(refs: &NameSet, fb: &Fb, hidden: &Vec<String>) -> (r: NameSet)
    requires
        refs.wf(),
    ensures
        r.wf(),
        r@ == refs@.intersect(scope_set(fb@.scope)).difference(texts(hidden@).to_set()),
{
    let mut out: NameSet = NameSet::new();
    let ghost s = texts(refs.names@);
    let ghost keep = |n: Seq<char>|
        scope_set(fb@.scope).contains(n) && !texts(hidden@).to_set().contains(n);
    let mut i: usize = 0;
    assert(s.take(0).to_set() =~= Set::<Seq<char>>::empty());
    assert(out@ =~= s.take(0).to_set().filter(keep));
    while i < refs.names.len()
        invariant
            i <= refs.names@.len(),
            out.wf(),
            s == texts(refs.names@),
            keep == (|n: Seq<char>|
                scope_set(fb@.scope).contains(n) && !texts(hidden@).to_set().contains(n)),
            out@ == s.take(i as int).to_set().filter(keep),
        decreases refs.names@.len() - i,
    {
        let name = refs.names[i].as_str();
        assert(s[i as int] == name@);
        let ghost before = out@;
        if fb.lookup(name).is_some() && !has_name(hidden, name) {
            out.insert(name);
        }
        proof {
            assert(s.take(i + 1) =~= s.take(i as int).push(s[i as int]));
            assert(s.take(i + 1).to_set() =~= s.take(i as int).to_set().insert(s[i as int])) by {
                lemma_push_set(s.take(i as int), s[i as int]);
            }
            assert(out@ =~= s.take(i + 1).to_set().filter(keep));
        }
        i = i + 1;
    }
    assert(s.take(i as int) =~= s);
    assert(out@ =~= refs@.intersect(scope_set(fb@.scope)).difference(texts(hidden@).to_set()));
    out
}

proof fn lemma_push_set(s: Seq<Seq<char>>, x: Seq<char>)
    ensures
        s.push(x).to_set() == s.to_set().insert(x),
{
    assert forall|n: Seq<char>| s.push(x).to_set().contains(n) <==> s.to_set().insert(x).contains(
        n,
    ) by {
        if s.contains(n) {
            let i = choose|i: int| 0 <= i < s.len() && s[i] == n;
            assert(s.push(x)[i] == n);
        }
        if n == x {
            assert(s.push(x)[s.len() as int] == n);
        }
        if s.push(x).contains(n) {
            let i = choose|i: int| 0 <= i < s.push(x).len() && s.push(x)[i] == n;
            if i < s.len() {
                assert(s[i] == n);
            }
        }
    }
    assert(s.push(x).to_set() =~= s.to_set().insert(x));
}

/// Emits a lambda: its first segment becomes a closure; its captures are the
/// outer locals its body references, copied by value at the `Closure`
/// instruction.
fn emit_lambda(floats: &FloatTable, g: &mut Gen, params: &Vec<String>, body: &Vec<Stmt>) -> (r:
    Result<(), String>)
    requires
        old(g).cg.wf(),
    ensures
        done(r, low_lambda(floats@, old(g)@, texts(params@), stmts_v(*body)), *final(g)),
    decreases body, 6int, 0int,
{
    proof {
        lemma_stmts(*body);
    }
    let n: u32 = count(g.lambda_n);
    g.lambda_n = n;
    let prefix: String = joined(g.fn_name.as_str(), ":l", n as u64);
    let mut refs: NameSet = NameSet::new();
    refs_stmts(body, 0, body.len(), &mut refs);
    let caps: NameSet = bound(&refs, &g.fb, params);
    proof {
        assert(refs@ =~= refs_of(stmts_v(*body), 0, body@.len() as int));
        caps.lemma_ordered();
    }
    let mut outer: Fb = Fb::new(prefix.as_str());
    outer.n_caps = caps.names.len() as u8;
    outer.n_params = params.len() as u8;
    core::mem::swap(&mut g.fb, &mut outer);
    g.locals(&caps.names)?;
    g.locals(params)?;
    emit_flow_body(floats, g, prefix.as_str(), body)?;
    core::mem::swap(&mut g.fb, &mut outer);
    let ix: usize = g.cg.add_fn(outer.into_function());
    g.load(&caps);
    g.emit(Instr::Closure(ix as u32, caps.names.len() as u8));
    Ok(())
}

/// Compiles a segment as a function of one parameter, `__vars`, which is
/// unpacked first.
fn compile_segment(
    floats: &FloatTable,
    g: &mut Gen,
    id: &str,
    ship: &NameSet,
    body: &Vec<Stmt>,
    from: usize,
    to: usize,
    chain: &Option<Chain>,
) -> (r: Result<(), String>)
    requires
        old(g).cg.wf(),
        ship.wf(),
        from <= to <= body@.len(),
        chain is Some ==> chain->0.ship.wf(),
    ensures
        done(
            r,
            low_segment(
                floats@,
                old(g)@,
                id@,
                ship@,
                stmts_v(*body),
                from as int,
                to as int,
                chain_v(*chain),
            ),
            *final(g),
        ),
    decreases body, 3int, 0int,
{
    proof {
        ship.lemma_ordered();
    }
    let mut outer: Fb = Fb::new(id);
    outer.n_params = 1;
    core::mem::swap(&mut g.fb, &mut outer);
    let slot: u16 = g.fb.def_local("__vars");
    g.unpack(slot, &ship.names)?;
    emit_stmts(floats, g, body, from, to)?;
    if let Some(ch) = chain {
        g.emit_hop(ch.side, ch.id.as_str(), &ch.ship)?;
    }
    core::mem::swap(&mut g.fb, &mut outer);
    let ix: usize = g.cg.add_fn(outer.into_function());
    g.cg.hops.insert(id, ix);
    Ok(())
}

/// What a chained segment leads to.
struct Chain {
    side: Side,
    id: String,
    ship: NameSet,
}

spec fn chain_v(c: Option<Chain>) -> Option<ChainV> {
    match c {
        Some(ch) => Some(ChainV { side: ch.side, id: ch.id@, ship: ch.ship@ }),
        None => None,
    }
}

/// The ship sets of the hops into the segments, the first being no hop.
fn ship_sets(body: &Vec<Stmt>, segs: &Vec<Segment>, base: &NameSet) -> (r: Vec<NameSet>)
    requires
        base.wf(),
        segs@.len() >= 1,
        forall|k: int| 0 <= k < segs@.len() ==> (#[trigger] segs@[k]).from <= segs@[k].to <= body@.len(),
    ensures
        r@.len() == segs@.len(),
        forall|k: int| 0 <= k < r@.len() ==> (#[trigger] r@[k]).wf(),
        forall|k: int|
            1 <= k < r@.len() ==> (#[trigger] r@[k])@ == ship_of(
                stmts_v(*body),
                segments_v(segs@),
                base@,
                k,
            ),
{
    let ghost bv = stmts_v(*body);
    let ghost sv = segments_v(segs@);
    proof {
        lemma_stmts(*body);
    }
    let mut out: Vec<NameSet> = Vec::new();
    out.push(NameSet::new());
    let mut scope: NameSet = base.copy();
    toplevel_lets(body, segs[0].from, segs[0].to, &mut scope);
    let mut k: usize = 1;
    while k < segs.len()
        invariant
            1 <= k <= segs@.len(),
            scope.wf(),
            bv == stmts_v(*body),
            bv.len() == body@.len(),
            sv == segments_v(segs@),
            forall|k: int| 0 <= k < segs@.len() ==> (#[trigger] segs@[k]).from <= segs@[k].to <= body@.len(),
            scope@ == scope_end(bv, sv, base@, k - 1),
            out@.len() == k,
            forall|j: int| 0 <= j < k ==> (#[trigger] out@[j]).wf(),
            forall|j: int| 1 <= j < k ==> (#[trigger] out@[j])@ == ship_of(bv, sv, base@, j),
        decreases segs@.len() - k,
    {
        let mut refs: NameSet = NameSet::new();
        let from: usize = segs[k].from;
        refs_stmts(body, from, body.len(), &mut refs);
        let mut ship: NameSet = NameSet::new();
        let ghost s = texts(refs.names@);
        let mut i: usize = 0;
        assert(s.take(0).to_set() =~= Set::<Seq<char>>::empty());
        assert(ship@ =~= s.take(0).to_set().intersect(scope@));
        while i < refs.names.len()
            invariant
                i <= refs.names@.len(),
                ship.wf(),
                s == texts(refs.names@),
                ship@ == s.take(i as int).to_set().intersect(scope@),
            decreases refs.names@.len() - i,
        {
            let name = refs.names[i].as_str();
            assert(s[i as int] == name@);
            if scope.contains(name) {
                ship.insert(name);
            }
            proof {
                assert(s.take(i + 1) =~= s.take(i as int).push(s[i as int]));
                lemma_push_set(s.take(i as int), s[i as int]);
                assert(ship@ =~= s.take(i + 1).to_set().intersect(scope@));
            }
            i = i + 1;
        }
        proof {
            assert(s.take(i as int) =~= s);
            assert(sv[k as int] == segs@[k as int]@);
            assert(refs@ =~= refs_of(bv, from as int, bv.len() as int));
            assert(ship@ =~= ship_of(bv, sv, base@, k as int));
        }
        scope = ship.copy();
        toplevel_lets(body, segs[k].from, segs[k].to, &mut scope);
        assert(scope@ == scope_end(bv, sv, base@, k as int));
        out.push(ship);
        k = k + 1;
    }
    out
}

/// Emits a flow body (a named function or a lambda's first segment): the code
/// of the first segment, and the hop into the second where marks are present.
/// Later segments are compiled as separate functions.
fn emit_flow_body(floats: &FloatTable, g: &mut Gen, prefix: &str, body: &Vec<Stmt>) -> (r: Result<
    (),
    String,
>)
    requires
        old(g).cg.wf(),
    ensures
        done(r, low_flow(floats@, old(g)@, prefix@, stmts_v(*body)), *final(g)),
    decreases body, 5int, 0int,
{
    check_no_nested_marks(body)?;
    let segs: Vec<Segment> = split_segments(body, prefix)?;
    let ghost bv = stmts_v(*body);
    let ghost sv = segments_v(segs@);
    proof {
        lemma_stmts(*body);
        assert(sv[0] == segs@[0]@);
    }
    let base: NameSet = g.fb.scope_names();
    emit_stmts(floats, g, body, segs[0].from, segs[0].to)?;
    if segs.len() == 1 {
        return Ok(());
    }
    let ships: Vec<NameSet> = ship_sets(body, &segs, &base);
    assert(sv[1] == segs@[1]@);
    let first: String = joined(prefix, ":", 1);
    g.emit_hop(segs[1].side, first.as_str(), &ships[1])?;
    let ghost start = g@;
    let mut k: usize = 1;
    while k < segs.len()
        invariant
            1 <= k <= segs@.len(),
            g.cg.wf(),
            bv == stmts_v(*body),
            bv.len() == body@.len(),
            sv == segments_v(segs@),
            ships@.len() == segs@.len(),
            forall|j: int| 0 <= j < segs@.len() ==> (#[trigger] segs@[j]).from <= segs@[j].to <= body@.len(),
            forall|j: int| 0 <= j < ships@.len() ==> (#[trigger] ships@[j]).wf(),
            forall|j: int| 1 <= j < ships@.len() ==> (#[trigger] ships@[j])@ == ship_of(bv, sv, base@, j),
            low_flow(floats@, old(g)@, prefix@, bv) == low_segments(
                floats@,
                start,
                prefix@,
                bv,
                sv,
                base@,
                sv.len() as int,
            ),
            low_segments(floats@, start, prefix@, bv, sv, base@, k as int) == Ok::<
                GenV,
                Seq<char>,
            >(g@),
        decreases segs@.len() - k,
    {
        assert(sv[k as int] == segs@[k as int]@);
        let chain: Option<Chain> = if k + 1 < segs.len() {
            assert(sv[k + 1] == segs@[k + 1]@);
            Some(
                Chain {
                    side: segs[k + 1].side,
                    id: joined(prefix, ":", (k + 1) as u64),
                    ship: ships[k + 1].copy(),
                },
            )
        } else {
            None
        };
        let id: String = joined(prefix, ":", k as u64);
        let r: Result<(), String> = compile_segment(
            floats,
            g,
            id.as_str(),
            &ships[k],
            body,
            segs[k].from,
            segs[k].to,
            &chain,
        );
        if let Err(m) = r {
            proof {
                lemma_segments_err(
                    floats@,
                    start,
                    prefix@,
                    bv,
                    sv,
                    base@,
                    k + 1,
                    sv.len() as int,
                );
            }
            return Err(m);
        }
        k = k + 1;
    }
    Ok(())
}

/// Emits the statements from `from` up to `to`.
pub fn emit_stmts(
    floats: &FloatTable,
    g: &mut Gen,
    ss: &Vec<Stmt>,
    from: usize,
    to: usize,
) -> (r: Result<(), String>)
    requires
        old(g).cg.wf(),
        from <= to <= ss@.len(),
    ensures
        done(r, low_stmts(floats@, old(g)@, stmts_v(*ss), from as int, to as int), *final(g)),
    decreases ss, 1int, 0int,
{
    let mut i: usize = from;
    proof {
        lemma_stmts(*ss);
    }
    while i < to
        invariant
            from <= i <= to <= ss@.len(),
            g.cg.wf(),
            stmts_v(*ss).len() == ss@.len(),
            forall|j: int| 0 <= j < ss@.len() ==> #[trigger] stmts_v(*ss)[j] == ss@[j]@,
            low_stmts(floats@, old(g)@, stmts_v(*ss), from as int, i as int) == Ok::<
                GenV,
                Seq<char>,
            >(g@),
        decreases to - i,
    {
        let ghost e = stmts_v(*ss)[i as int];
        let r: Result<(), String> = emit_stmt(floats, g, &ss[i]);
        if let Err(m) = r {
            proof {
                lemma_stmts_err(floats@, old(g)@, stmts_v(*ss), from as int, i + 1, to as int);
            }
            return Err(m);
        }
        i = i + 1;
    }
    Ok(())
}

/// Emits a block; its locals go out of scope at its end.
fn emit_block(floats: &FloatTable, g: &mut Gen, ss: &Vec<Stmt>) -> (r: Result<(), String>)
    requires
        old(g).cg.wf(),
    ensures
        done(r, low_block(floats@, old(g)@, stmts_v(*ss)), *final(g)),
    decreases ss, 2int, 0int,
{
    proof {
        lemma_stmts(*ss);
    }
    let mark: usize = g.fb.scope.len();
    emit_stmts(floats, g, ss, 0, ss.len())?;
    g.cut(mark);
    Ok(())
}

fn emit_stmt(floats: &FloatTable, g: &mut Gen, s: &Stmt) -> (r: Result<(), String>)
    requires
        old(g).cg.wf(),
    ensures
        done(r, low_stmt(floats@, old(g)@, s@), *final(g)),
    decreases s, 1int, 0int,
{
    match s {
        Stmt::Let(n, e) => {
            emit_expr(floats, g, e)?;
            if g.fb.n_locals == u16::MAX {
                return too_many();
            }
            let slot: u16 = g.fb.def_local(n.as_str());
            g.emit(Instr::StoreLocal(slot));
            Ok(())
        },
        Stmt::Assign(_, _) => emit_assign(floats, g, s),
        Stmt::Return(e) => {
            match e {
                Some(e) => {
                    emit_expr(floats, g, e)?;
                },
                None => {
                    g.emit(Instr::Nil);
                },
            }
            g.emit(Instr::Return);
            Ok(())
        },
        Stmt::If(_, _, _) => emit_if(floats, g, s),
        Stmt::Match(_, _) => emit_match(floats, g, s),
        Stmt::For(_, _, _, _) => emit_for(floats, g, s),
        Stmt::While(_, _) => emit_while(floats, g, s),
        Stmt::Mark(_) => Ok(()),
        Stmt::Cast(_, _) => emit_cast(floats, g, s),
        Stmt::Spawn(e) => {
            match e {
                Expr::Call(c, args) => {
                    proof {
                        lemma_exprs(*args);
                    }
                    emit_expr(floats, g, c)?;
                    emit_exprs(floats, g, args)?;
                    g.emit(Instr::MakeArray(args.len() as u16));
                    g.emit(Instr::Spawn);
                    Ok(())
                },
                _ => Err("spawn expects a function call".to_owned()),
            }
        },
        Stmt::Expr(e) => {
            emit_expr(floats, g, e)?;
            g.emit(Instr::Pop);
            Ok(())
        },
    }
}

fn emit_assign(floats: &FloatTable, g: &mut Gen, s: &Stmt) -> (r: Result<(), String>)
    requires
        old(g).cg.wf(),
        s is Assign,
    ensures
        done(r, low_stmt(floats@, old(g)@, s@), *final(g)),
    decreases s, 0int, 0int,
{
    match s {
        Stmt::Assign(l, r) => match l {
            Expr::Ident(n) => {
                emit_expr(floats, g, r)?;
                match g.fb.lookup(n.as_str()) {
                    Some(slot) => {
                        g.emit(Instr::StoreLocal(slot));
                    },
                    None => {
                        let k: u32 = g.name(n.as_str());
                        g.emit(Instr::StoreGlobal(k));
                    },
                }
                Ok(())
            },
            Expr::Field(b, name) => {
                emit_expr(floats, g, b)?;
                emit_expr(floats, g, r)?;
                let k: u32 = g.name(name.as_str());
                g.emit(Instr::SetField(k));
                Ok(())
            },
            Expr::Index(a, i) => {
                emit_expr(floats, g, a)?;
                emit_expr(floats, g, i)?;
                emit_expr(floats, g, r)?;
                g.emit(Instr::SetIndex);
                Ok(())
            },
            _ => Err("invalid assignment target".to_owned()),
        },
        _ => Ok(()),
    }
}

fn emit_if(floats: &FloatTable, g: &mut Gen, s: &Stmt) -> (r: Result<(), String>)
    requires
        old(g).cg.wf(),
        s is If,
    ensures
        done(r, low_stmt(floats@, old(g)@, s@), *final(g)),
    decreases s, 0int, 0int,
{
    match s {
        Stmt::If(c, yes, no) => {
            emit_expr(floats, g, c)?;
            let j: usize = g.placeholder(Instr::JumpIfFalse(0));
            emit_block(floats, g, yes)?;
            match no {
                Some(no) => {
                    let end: usize = g.placeholder(Instr::Jump(0));
                    g.patch(j);
                    emit_block(floats, g, no)?;
                    g.patch(end);
                },
                None => {
                    g.patch(j);
                },
            }
            Ok(())
        },
        _ => Ok(()),
    }
}

/// Lowers a `match` to a chain of tests: the subject and its `.type` are
/// evaluated once into hidden locals, each arm tests the tag and jumps to the
/// next arm, and a matching arm loads its fields into fresh locals before its
/// body runs. The first match wins; no match and no `else` falls through.
fn emit_match(floats: &FloatTable, g: &mut Gen, s: &Stmt) -> (r: Result<(), String>)
    requires
        old(g).cg.wf(),
        s is Match,
    ensures
        done(r, low_stmt(floats@, old(g)@, s@), *final(g)),
    decreases s, 0int, 0int,
{
    match s {
        Stmt::Match(subject, arms) => {
            proof {
                lemma_arms(*arms);
            }
            emit_expr(floats, g, subject)?;
            if g.fb.n_locals == u16::MAX {
                return too_many();
            }
            let subj: u16 = g.fb.hidden_local();
            g.emit(Instr::StoreLocal(subj));
            let k: u32 = g.name("type");
            g.emit(Instr::LoadLocal(subj));
            g.emit(Instr::GetField(k));
            if g.fb.n_locals == u16::MAX {
                return too_many();
            }
            let tag: u16 = g.fb.hidden_local();
            g.emit(Instr::StoreLocal(tag));
            let ends: Vec<usize> = emit_arms(floats, g, subj, tag, arms)?;
            let ghost all = ints(ends@);
            let ghost start = g@;
            let mut i: usize = 0;
            while i < ends.len()
                invariant
                    i <= ends@.len(),
                    g.cg.wf(),
                    all == ints(ends@),
                    g@ == all_patched(start, all, i as int),
                decreases ends@.len() - i,
            {
                assert(all[i as int] == ends@[i as int] as int);
                g.patch(ends[i]);
                i = i + 1;
            }
            Ok(())
        },
        _ => Ok(()),
    }
}

spec fn ints(v: Seq<usize>) -> Seq<int> {
    v.map_values(|x: usize| x as int)
}

fn emit_arms(floats: &FloatTable, g: &mut Gen, subj: u16, tag: u16, arms: &Vec<MatchArm>) -> (r:
    Result<Vec<usize>, String>)
    requires
        old(g).cg.wf(),
    ensures
        match (
            r,
            low_arms(floats@, old(g)@, subj, tag, arms_v(*arms), arms@.len() as int),
        ) {
            (Ok(ends), Ok((h, es))) => ints(ends@) == es && final(g)@ == h && final(g).cg.wf(),
            (Err(m), Err(w)) => m@ == w,
            _ => false,
        },
    decreases arms, 1int, 0int,
{
    let mut ends: Vec<usize> = Vec::new();
    let mut i: usize = 0;
    proof {
        lemma_arms(*arms);
        assert(ints(ends@) =~= Seq::<int>::empty());
    }
    while i < arms.len()
        invariant
            i <= arms@.len(),
            g.cg.wf(),
            arms_v(*arms).len() == arms@.len(),
            forall|j: int| 0 <= j < arms@.len() ==> #[trigger] arms_v(*arms)[j] == arms@[j]@,
            low_arms(floats@, old(g)@, subj, tag, arms_v(*arms), i as int) == Ok::<
                (GenV, Seq<int>),
                Seq<char>,
            >((g@, ints(ends@))),
        decreases arms@.len() - i,
    {
        let ghost e = arms_v(*arms)[i as int];
        let ghost before = ends@;
        let r: Result<Option<usize>, String> = emit_arm(floats, g, subj, tag, &arms[i]);
        match r {
            Err(m) => {
                proof {
                    lemma_arms_err(
                        floats@,
                        old(g)@,
                        subj,
                        tag,
                        arms_v(*arms),
                        i + 1,
                        arms@.len() as int,
                    );
                }
                return Err(m);
            },
            Ok(Some(end)) => {
                ends.push(end);
                assert(ints(ends@) =~= ints(before).push(end as int));
            },
            Ok(None) => {},
        }
        i = i + 1;
    }
    Ok(ends)
}

/// What one arm adds to the code, and the place of the jump behind it.
spec fn low_arm(f: Seq<FactV>, g: GenV, subj: u16, tag: u16, arm: MatchArmV) -> Result<
    (GenV, Option<int>),
    Seq<char>,
> {
    match arm.tag {
        None => match low_block(f, g, arm.body) {
            Err(m) => Err(m),
            Ok(k) => Ok((k, None)),
        },
        Some(name) => {
            let a = push_str(emitted(g, Instr::LoadLocal(tag)), name);
            let b = emitted(a, Instr::BinOp(BinOp::Eq));
            let next = b.fb.code.len() as int;
            match unpacked(
                emitted(b, Instr::JumpIfFalse(0)),
                subj,
                arm.fields,
                arm.fields.len() as int,
            ) {
                Err(m) => Err(m),
                Ok(d) => match low_stmts(f, d, arm.body, 0, arm.body.len() as int) {
                    Err(m) => Err(m),
                    Ok(e) => {
                        let e = cut_scope(e, g.fb.scope.len() as int);
                        let end = e.fb.code.len() as int;
                        Ok((patched(emitted(e, Instr::Jump(0)), next), Some(end)))
                    },
                },
            }
        },
    }
}

fn emit_arm(floats: &FloatTable, g: &mut Gen, subj: u16, tag: u16, arm: &MatchArm) -> (r: Result<
    Option<usize>,
    String,
>)
    requires
        old(g).cg.wf(),
    ensures
        match (r, low_arm(floats@, old(g)@, subj, tag, arm@)) {
            (Ok(Some(end)), Ok((h, Some(e)))) => end == e && final(g)@ == h && final(g).cg.wf(),
            (Ok(None), Ok((h, None))) => final(g)@ == h && final(g).cg.wf(),
            (Err(m), Err(w)) => m@ == w,
            _ => false,
        },
    decreases arm, 0int, 0int,
{
    match &arm.tag {
        Some(name) => {
            proof {
                lemma_stmts(arm.body);
            }
            let mark: usize = g.fb.scope.len();
            g.emit(Instr::LoadLocal(tag));
            g.push_str(name.as_str());
            g.emit(Instr::BinOp(BinOp::Eq));
            let next: usize = g.placeholder(Instr::JumpIfFalse(0));
            g.unpack(subj, &arm.fields)?;
            emit_stmts(floats, g, &arm.body, 0, arm.body.len())?;
            g.cut(mark);
            let end: usize = g.placeholder(Instr::Jump(0));
            g.patch(next);
            Ok(Some(end))
        },
        None => {
            emit_block(floats, g, &arm.body)?;
            Ok(None)
        },
    }
}

fn emit_for(floats: &FloatTable, g: &mut Gen, s: &Stmt) -> (r: Result<(), String>)
    requires
        old(g).cg.wf(),
        s is For,
    ensures
        done(r, low_stmt(floats@, old(g)@, s@), *final(g)),
    decreases s, 0int, 0int,
{
    match s {
        Stmt::For(k, v, e, body) => {
            proof {
                lemma_stmts(*body);
            }
            emit_expr(floats, g, e)?;
            if g.fb.n_locals > u16::MAX - 4 {
                return too_many();
            }
            g.emit(Instr::IterNew);
            let iter: u16 = g.fb.hidden_local();
            g.emit(Instr::StoreLocal(iter));
            let zero: u32 = g.cg.k_int(0);
            g.emit(Instr::Const(zero));
            let idx: u16 = g.fb.hidden_local();
            g.emit(Instr::StoreLocal(idx));
            let mark: usize = g.fb.scope.len();
            let k_slot: u16 = g.fb.def_local(k.as_str());
            let v_slot: u16 = g.fb.def_local(v.as_str());
            let start: usize = g.fb.code.len();
            g.emit(Instr::LoadLocal(iter));
            g.emit(Instr::LoadLocal(idx));
            let end: usize = g.placeholder(Instr::IterNext(0));
            g.emit(Instr::StoreLocal(v_slot));
            g.emit(Instr::StoreLocal(k_slot));
            g.emit(Instr::StoreLocal(idx));
            g.emit(Instr::StoreLocal(iter));
            emit_stmts(floats, g, body, 0, body.len())?;
            g.jump_back(start);
            g.patch(end);
            g.cut(mark);
            Ok(())
        },
        _ => Ok(()),
    }
}

fn emit_while(floats: &FloatTable, g: &mut Gen, s: &Stmt) -> (r: Result<(), String>)
    requires
        old(g).cg.wf(),
        s is While,
    ensures
        done(r, low_stmt(floats@, old(g)@, s@), *final(g)),
    decreases s, 0int, 0int,
{
    match s {
        Stmt::While(c, body) => {
            let start: usize = g.fb.code.len();
            emit_expr(floats, g, c)?;
            let j: usize = g.placeholder(Instr::JumpIfFalse(0));
            emit_block(floats, g, body)?;
            g.jump_back(start);
            g.patch(j);
            Ok(())
        },
        _ => Ok(()),
    }
}

fn emit_cast(floats: &FloatTable, g: &mut Gen, s: &Stmt) -> (r: Result<(), String>)
    requires
        old(g).cg.wf(),
        s is Cast,
    ensures
        done(r, low_stmt(floats@, old(g)@, s@), *final(g)),
    decreases s, 0int, 0int,
{
    match s {
        Stmt::Cast(target, body) => {
            proof {
                lemma_stmts(*body);
            }
            let n: u32 = count(g.cast_n);
            g.cast_n = n;
            let id: String = joined(g.fn_name.as_str(), ":c", n as u64);
            let mut refs: NameSet = NameSet::new();
            refs_stmts(body, 0, body.len(), &mut refs);
            let none: Vec<String> = Vec::new();
            let captured: NameSet = bound(&refs, &g.fb, &none);
            proof {
                let all = refs_of(stmts_v(*body), 0, body@.len() as int);
                assert(refs@ =~= all);
                assert(captured@ =~= all.intersect(scope_set(g.fb@.scope)));
            }
            compile_segment(floats, g, id.as_str(), &captured, body, 0, body.len(), &None)?;
            emit_target(floats, g, target)?;
            g.emit_vars_map(&captured)?;
            let k: u32 = g.name(id.as_str());
            g.emit(Instr::Cast(k));
            Ok(())
        },
        _ => Ok(()),
    }
}

fn emit_target(floats: &FloatTable, g: &mut Gen, t: &CastTarget) -> (r: Result<(), String>)
    requires
        old(g).cg.wf(),
    ensures
        done(r, low_target(floats@, old(g)@, t@), *final(g)),
    decreases t, 0int, 0int,
{
    match t {
        CastTarget::Browsers => {
            g.push_str("browsers");
            Ok(())
        },
        CastTarget::Server => {
            g.push_str("server");
            Ok(())
        },
        CastTarget::Session(e) => emit_expr(floats, g, e),
        CastTarget::User(e) => {
            g.push_str("user:");
            emit_expr(floats, g, e)?;
            g.emit(Instr::BinOp(BinOp::Concat));
            Ok(())
        },
    }
}

fn compile_item(floats: &FloatTable, cg: Cg, item: &Item) -> (r: Result<Cg, String>)
    requires
        cg.wf(),
    ensures
        match (r, low_item(floats@, cg@, item@)) {
            (Ok(c), Ok(v)) => c@ == v && c.wf(),
            (Err(m), Err(w)) => m@ == w,
            _ => false,
        },
{
    match item {
        Item::ServerLet(name, e) => {
            let mut label: String = "let:".to_owned();
            label.append(name.as_str());
            let fb: Fb = Fb::new(label.as_str());
            let mut g = Gen { cg, fb, fn_name: label, cast_n: 0, lambda_n: 0 };
            emit_expr(floats, &mut g, e)?;
            g.emit(Instr::Return);
            let Gen { cg: mut cg, fb, fn_name: _, cast_n: _, lambda_n: _ } = g;
            let ix: usize = cg.add_fn(fb.into_function());
            let ghost before = cg.server_lets@;
            cg.server_lets.push((name.clone(), ix));
            assert(lets_v(cg.server_lets@) =~= lets_v(before).push((name@, ix)));
            Ok(cg)
        },
        Item::Fn(name, params, body) => {
            let mut fb: Fb = Fb::new(name.as_str());
            fb.n_params = params.len() as u8;
            let mut g = Gen { cg, fb, fn_name: name.clone(), cast_n: 0, lambda_n: 0 };
            g.locals(params)?;
            emit_flow_body(floats, &mut g, name.as_str(), body)?;
            let Gen { cg: mut cg, fb, fn_name: _, cast_n: _, lambda_n: _ } = g;
            let ix: usize = cg.add_fn(fb.into_function());
            cg.named.insert(name.as_str(), ix);
            Ok(cg)
        },
    }
}

/// What `src` compiles to, where `f` says what its float literals are.
pub open spec fn compiled(f: Seq<FactV>, src: Seq<char>) -> Result<ProgramV, Seq<char>> {
    match lex_from(src, 0) {
        Err(m) => Err(m),
        Ok(toks) => match p_items(toks, 0) {
            Err(m) => Err(m),
            Ok(items) => match low_items(f, items, items.len() as int) {
                Err(m) => Err(m),
                Ok(cg) => Ok(program_of(cg)),
            },
        },
    }
}

/// Compile `.hop` source to a Hop IR program. `floats` says what the float
/// literals of the source parse to; one that it does not list is no number.
pub fn compile(src: &str, floats: &FloatTable) -> (r: Result<Program, String>)
    ensures
        match (r, compiled(floats@, src@)) {
            (Ok(p), Ok(v)) => p@ == v && p.hops.wf() && p.named.wf(),
            (Err(m), Err(w)) => m@ == w,
            _ => false,
        },
{
    let toks: Vec<Tok> = lex(src)?;
    let mut parser = Parser { toks, pos: 0 };
    let items: Vec<Item> = parser.items()?;
    let ghost iv = items_v(items@);
    let mut cg: Cg = Cg::new();
    let mut i: usize = 0;
    while i < items.len()
        invariant
            i <= items@.len(),
            iv == items_v(items@),
            cg.wf(),
            low_items(floats@, iv, i as int) == Ok::<CgV, Seq<char>>(cg@),
            compiled(floats@, src@) == (match low_items(floats@, iv, iv.len() as int) {
                Err(m) => Err(m),
                Ok(cg) => Ok(program_of(cg)),
            }),
        decreases items@.len() - i,
    {
        assert(iv[i as int] == items@[i as int]@);
        match compile_item(floats, cg, &items[i]) {
            Ok(c) => {
                cg = c;
            },
            Err(m) => {
                proof {
                    lemma_items_err(floats@, iv, i + 1, iv.len() as int);
                }
                return Err(m);
            },
        }
        i = i + 1;
    }
    Ok(
        Program {
            consts: cg.consts,
            fns: cg.fns,
            hops: cg.hops,
            named: cg.named,
            server_lets: cg.server_lets,
        },
    )
}

/// The float literals of `src`: the number tokens with a point.
pub open spec fn literals(toks: Seq<crate::lexer::TokV>, n: int) -> Seq<Seq<char>>
    decreases n,
{
    if n <= 0 || n > toks.len() {
        Seq::empty()
    } else {
        match toks[n - 1] {
            crate::lexer::TokV::Num(s) => if s.contains('.') {
                literals(toks, n - 1).push(s)
            } else {
                literals(toks, n - 1)
            },
            _ => literals(toks, n - 1),
        }
    }
}

/// The float literals of `src`, which `compile` wants to know the bits of; none
/// where `src` has no tokens.
pub fn float_literals(src: &str) -> (r: Vec<String>)
    ensures
        texts(r@) == (match lex_from(src@, 0) {
            Ok(toks) => literals(toks, toks.len() as int),
            Err(_) => Seq::empty(),
        }),
{
    let mut out: Vec<String> = Vec::new();
    assert(texts(out@) =~= Seq::<Seq<char>>::empty());
    match lex(src) {
        Err(_) => out,
        Ok(toks) => {
            let ghost tv = crate::lexer::toks_v(toks@);
            let mut i: usize = 0;
            while i < toks.len()
                invariant
                    i <= toks@.len(),
                    tv == crate::lexer::toks_v(toks@),
                    texts(out@) == literals(tv, i as int),
                decreases toks@.len() - i,
            {
                assert(tv[i as int] == toks@[i as int]@);
                if let Tok::Num(s) = &toks[i] {
                    let cs: Vec<char> = chars_of(s.as_str());
                    if has_char(&cs, '.') {
                        let ghost before = out@;
                        out.push(s.clone());
                        assert(texts(out@) =~= texts(before).push(s@));
                    }
                }
                i = i + 1;
            }
            out
        },
    }
}

} // verus!
