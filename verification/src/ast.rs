//! The syntax tree of `.hop` source.

use crate::ir::{BinOp, UnOp};
use crate::text::texts;
use vstd::prelude::*;

verus! {

/// A binary operator: the two that skip their right side, or a plain one.
#[derive(Clone, Copy, Debug, PartialEq, Eq, Structural)]
pub enum BinaryOp {
    And,
    Or,
    Plain(BinOp),
}

/// The side a placement mark moves to.
#[derive(Clone, Copy, Debug, PartialEq, Eq, Structural)]
pub enum Side {
    Server,
    Browser,
}

#[derive(Debug)]
pub enum Expr {
    Num(String),
    Str(String),
    Bool(bool),
    Nil,
    Ident(String),
    Field(Box<Expr>, String),
    Index(Box<Expr>, Box<Expr>),
    Call(Box<Expr>, Vec<Expr>),
    Unary(UnOp, Box<Expr>),
    Binary(BinaryOp, Box<Expr>, Box<Expr>),
    Table(Vec<(String, Expr)>),
    Array(Vec<Expr>),
    /// `fn (params) { ... }` in expression position; the body may hold marks.
    Fn(Vec<String>, Vec<Stmt>),
}

/// Where a cast goes.
#[derive(Debug)]
pub enum CastTarget {
    Browsers,
    Server,
    Session(Expr),
    /// Every connected tab of one user (address `user:<uid>`).
    User(Expr),
}

/// One `match` arm: `tag { field, ... } => block`. Without a tag it is the
/// `else` arm, which always matches.
#[derive(Debug)]
pub struct MatchArm {
    pub tag: Option<String>,
    pub fields: Vec<String>,
    pub body: Vec<Stmt>,
}

#[derive(Debug)]
pub enum Stmt {
    Let(String, Expr),
    Assign(Expr, Expr),
    Return(Option<Expr>),
    If(Expr, Vec<Stmt>, Option<Vec<Stmt>>),
    /// `match expr { arm* }`: dispatch on `expr.type`; the first match wins.
    Match(Expr, Vec<MatchArm>),
    /// `for k, v in expr { ... }`: arrays yield (0-based index, element), maps
    /// yield (key, value) in key order.
    For(String, String, Expr, Vec<Stmt>),
    /// `while expr { ... }`: the condition is evaluated before each round.
    While(Expr, Vec<Stmt>),
    Mark(Side),
    Cast(CastTarget, Vec<Stmt>),
    Spawn(Expr),
    Expr(Expr),
}

#[derive(Debug)]
pub enum Item {
    ServerLet(String, Expr),
    Fn(String, Vec<String>, Vec<Stmt>),
}

pub enum ExprV {
    Num(Seq<char>),
    Str(Seq<char>),
    Bool(bool),
    Nil,
    Ident(Seq<char>),
    Field(Box<ExprV>, Seq<char>),
    Index(Box<ExprV>, Box<ExprV>),
    Call(Box<ExprV>, Seq<ExprV>),
    Unary(UnOp, Box<ExprV>),
    Binary(BinaryOp, Box<ExprV>, Box<ExprV>),
    Table(Seq<(Seq<char>, ExprV)>),
    Array(Seq<ExprV>),
    Fn(Seq<Seq<char>>, Seq<StmtV>),
}

pub enum CastTargetV {
    Browsers,
    Server,
    Session(ExprV),
    User(ExprV),
}

pub struct MatchArmV {
    pub tag: Option<Seq<char>>,
    pub fields: Seq<Seq<char>>,
    pub body: Seq<StmtV>,
}

pub enum StmtV {
    Let(Seq<char>, ExprV),
    Assign(ExprV, ExprV),
    Return(Option<ExprV>),
    If(ExprV, Seq<StmtV>, Option<Seq<StmtV>>),
    Match(ExprV, Seq<MatchArmV>),
    For(Seq<char>, Seq<char>, ExprV, Seq<StmtV>),
    While(ExprV, Seq<StmtV>),
    Mark(Side),
    Cast(CastTargetV, Seq<StmtV>),
    Spawn(ExprV),
    Expr(ExprV),
}

pub enum ItemV {
    ServerLet(Seq<char>, ExprV),
    Fn(Seq<char>, Seq<Seq<char>>, Seq<StmtV>),
}

pub open spec fn exprs_v(v: Vec<Expr>) -> Seq<ExprV>
    decreases v,
{
    Seq::new(
        v@.len(),
        |i: int|
            if 0 <= i < v@.len() {
                v@[i]@
            } else {
                arbitrary()
            },
    )
}

pub open spec fn fields_v(v: Vec<(String, Expr)>) -> Seq<(Seq<char>, ExprV)>
    decreases v,
{
    Seq::new(
        v@.len(),
        |i: int|
            if 0 <= i < v@.len() {
                (v@[i].0@, v@[i].1@)
            } else {
                arbitrary()
            },
    )
}

pub open spec fn stmts_v(v: Vec<Stmt>) -> Seq<StmtV>
    decreases v,
{
    Seq::new(
        v@.len(),
        |i: int|
            if 0 <= i < v@.len() {
                v@[i]@
            } else {
                arbitrary()
            },
    )
}

pub open spec fn arms_v(v: Vec<MatchArm>) -> Seq<MatchArmV>
    decreases v,
{
    Seq::new(
        v@.len(),
        |i: int|
            if 0 <= i < v@.len() {
                v@[i]@
            } else {
                arbitrary()
            },
    )
}

/// The view of a list holds the views of its items.
pub proof fn lemma_exprs(v: Vec<Expr>)
    ensures
        exprs_v(v).len() == v@.len(),
        forall|i: int| 0 <= i < v@.len() ==> #[trigger] exprs_v(v)[i] == v@[i]@,
{
    reveal_with_fuel(exprs_v, 2);
}

/// The view of a list holds the views of its items.
pub proof fn lemma_fields(v: Vec<(String, Expr)>)
    ensures
        fields_v(v).len() == v@.len(),
        forall|i: int| 0 <= i < v@.len() ==> #[trigger] fields_v(v)[i] == (v@[i].0@, v@[i].1@),
{
    reveal_with_fuel(fields_v, 2);
}

/// The view of a list holds the views of its items.
pub proof fn lemma_stmts(v: Vec<Stmt>)
    ensures
        stmts_v(v).len() == v@.len(),
        forall|i: int| 0 <= i < v@.len() ==> #[trigger] stmts_v(v)[i] == v@[i]@,
{
    reveal_with_fuel(stmts_v, 2);
}

/// The view of a list holds the views of its items.
pub proof fn lemma_arms(v: Vec<MatchArm>)
    ensures
        arms_v(v).len() == v@.len(),
        forall|i: int| 0 <= i < v@.len() ==> #[trigger] arms_v(v)[i] == v@[i]@,
{
    reveal_with_fuel(arms_v, 2);
}

/// A statement pushed to a list is pushed to its view.
pub proof fn lemma_stmts_push(v: Vec<Stmt>, w: Vec<Stmt>, s: Stmt)
    requires
        w@ == v@.push(s),
    ensures
        stmts_v(w) == stmts_v(v).push(s@),
{
    reveal_with_fuel(stmts_v, 2);
    assert(stmts_v(w).len() == w@.len());
    assert(stmts_v(v).len() == v@.len());
    assert forall|i: int| 0 <= i < w@.len() implies #[trigger] stmts_v(w)[i] == stmts_v(v).push(
        s@,
    )[i] by {
        assert(stmts_v(w)[i] == w@[i]@);
        if i < v@.len() {
            assert(stmts_v(v)[i] == v@[i]@);
        }
    }
    assert(stmts_v(w) =~= stmts_v(v).push(s@));
}

impl View for Expr {
    type V = ExprV;

    open spec fn view(&self) -> ExprV
        decreases self,
    {
        match *self {
            Expr::Num(s) => ExprV::Num(s@),
            Expr::Str(s) => ExprV::Str(s@),
            Expr::Bool(b) => ExprV::Bool(b),
            Expr::Nil => ExprV::Nil,
            Expr::Ident(s) => ExprV::Ident(s@),
            Expr::Field(b, s) => ExprV::Field(Box::new((*b)@), s@),
            Expr::Index(a, b) => ExprV::Index(Box::new((*a)@), Box::new((*b)@)),
            Expr::Call(f, args) => ExprV::Call(Box::new((*f)@), exprs_v(args)),
            Expr::Unary(op, a) => ExprV::Unary(op, Box::new((*a)@)),
            Expr::Binary(op, a, b) => ExprV::Binary(op, Box::new((*a)@), Box::new((*b)@)),
            Expr::Table(fs) => ExprV::Table(fields_v(fs)),
            Expr::Array(xs) => ExprV::Array(exprs_v(xs)),
            Expr::Fn(ps, body) => ExprV::Fn(texts(ps@), stmts_v(body)),
        }
    }
}

impl View for CastTarget {
    type V = CastTargetV;

    open spec fn view(&self) -> CastTargetV
        decreases self,
    {
        match *self {
            CastTarget::Browsers => CastTargetV::Browsers,
            CastTarget::Server => CastTargetV::Server,
            CastTarget::Session(e) => CastTargetV::Session(e@),
            CastTarget::User(e) => CastTargetV::User(e@),
        }
    }
}

impl View for MatchArm {
    type V = MatchArmV;

    open spec fn view(&self) -> MatchArmV
        decreases self,
    {
        MatchArmV {
            tag: match self.tag {
                Some(t) => Some(t@),
                None => None,
            },
            fields: texts(self.fields@),
            body: stmts_v(self.body),
        }
    }
}

impl View for Stmt {
    type V = StmtV;

    open spec fn view(&self) -> StmtV
        decreases self,
    {
        match *self {
            Stmt::Let(n, e) => StmtV::Let(n@, e@),
            Stmt::Assign(l, r) => StmtV::Assign(l@, r@),
            Stmt::Return(e) => StmtV::Return(
                match e {
                    Some(e) => Some(e@),
                    None => None,
                },
            ),
            Stmt::If(c, t, e) => StmtV::If(
                c@,
                stmts_v(t),
                match e {
                    Some(e) => Some(stmts_v(e)),
                    None => None,
                },
            ),
            Stmt::Match(s, arms) => StmtV::Match(s@, arms_v(arms)),
            Stmt::For(k, v, e, body) => StmtV::For(k@, v@, e@, stmts_v(body)),
            Stmt::While(c, body) => StmtV::While(c@, stmts_v(body)),
            Stmt::Mark(side) => StmtV::Mark(side),
            Stmt::Cast(t, body) => StmtV::Cast(t@, stmts_v(body)),
            Stmt::Spawn(e) => StmtV::Spawn(e@),
            Stmt::Expr(e) => StmtV::Expr(e@),
        }
    }
}

impl View for Item {
    type V = ItemV;

    open spec fn view(&self) -> ItemV {
        match *self {
            Item::ServerLet(n, e) => ItemV::ServerLet(n@, e@),
            Item::Fn(n, ps, body) => ItemV::Fn(n@, texts(ps@), stmts_v(body)),
        }
    }
}

} // verus!
