//! The parser of `.hop` source: recursive descent over the tokens.

use crate::ast::{
    arms_v, exprs_v, fields_v, lemma_stmts_push, stmts_v, BinaryOp, CastTarget, Expr, ExprV, Item,
    ItemV, MatchArm, MatchArmV, Side, Stmt, StmtV,
};
use crate::grammar::{
    is_kw, is_p, op_at, p_arm, p_arm_fields, p_arms, p_arrow_block, p_binding, p_block, p_eat,
    p_expect, p_expr_paren, p_expr_semi, p_fields, p_head_block, p_ident, p_if, p_item, p_items,
    p_level, p_list, p_match, p_names, p_params, p_postfix, p_primary, p_rest, p_simple, p_stmt,
    p_stmts, p_target, p_unary, peek_text, rem, skip_comma,
};
use crate::ir::{BinOp, UnOp};
use crate::lexer::{copy_tok, describe, toks_v, Punct, Tok, TokV};
use crate::text::{text_eq, texts};
use vstd::prelude::*;
use vstd::string::*;

verus! {

/// The tokens, and the place that is read next.
pub struct Parser {
    pub toks: Vec<Tok>,
    pub pos: usize,
}

/// The reading gave what the grammar says, and stopped behind it.
pub open spec fn read_expr(r: Result<Expr, String>, s: Result<(ExprV, int), Seq<char>>, pos: usize) -> bool {
    match (r, s) {
        (Ok(e), Ok((v, j))) => e@ == v && pos == j,
        (Err(m), Err(w)) => m@ == w,
        _ => false,
    }
}

pub open spec fn read_stmt(r: Result<Stmt, String>, s: Result<(StmtV, int), Seq<char>>, pos: usize) -> bool {
    match (r, s) {
        (Ok(e), Ok((v, j))) => e@ == v && pos == j,
        (Err(m), Err(w)) => m@ == w,
        _ => false,
    }
}

pub open spec fn read_stmts(
    r: Result<Vec<Stmt>, String>,
    s: Result<(Seq<StmtV>, int), Seq<char>>,
    pos: usize,
) -> bool {
    match (r, s) {
        (Ok(e), Ok((v, j))) => stmts_v(e) == v && pos == j,
        (Err(m), Err(w)) => m@ == w,
        _ => false,
    }
}

pub open spec fn read_names(
    r: Result<Vec<String>, String>,
    s: Result<(Seq<Seq<char>>, int), Seq<char>>,
    pos: usize,
) -> bool {
    match (r, s) {
        (Ok(e), Ok((v, j))) => texts(e@) == v && pos == j,
        (Err(m), Err(w)) => m@ == w,
        _ => false,
    }
}

pub open spec fn read_unit(r: Result<(), String>, s: Result<int, Seq<char>>, pos: usize) -> bool {
    match (r, s) {
        (Ok(_), Ok(j)) => pos == j,
        (Err(m), Err(w)) => m@ == w,
        _ => false,
    }
}

impl Parser {
    /// The tokens.
    pub open spec fn t(&self) -> Seq<TokV> {
        toks_v(self.toks@)
    }

    /// The place lies in the tokens or right behind them.
    pub open spec fn ok(&self) -> bool {
        self.pos <= self.toks@.len()
    }

    /// `self` reads the tokens of `other`, and is not before it.
    pub open spec fn after(&self, other: &Parser) -> bool {
        self.toks == other.toks && self.ok() && other.pos <= self.pos
    }

    /// The next token.
    pub fn peek(&self) -> (r: Option<&Tok>)
        ensures
            match r {
                Some(x) => self.pos < self.toks@.len() && x@ == self.t()[self.pos as int],
                None => self.pos >= self.toks@.len(),
            },
    {
        if self.pos < self.toks.len() {
            Some(&self.toks[self.pos])
        } else {
            None
        }
    }

    /// The token behind the next one.
    pub fn peek2(&self) -> (r: Option<&Tok>)
        ensures
            match r {
                Some(x) => self.pos + 1 < self.toks@.len() && x@ == self.t()[self.pos + 1],
                None => self.pos + 1 >= self.toks@.len(),
            },
    {
        if self.pos < self.toks.len() && self.pos + 1 < self.toks.len() {
            Some(&self.toks[self.pos + 1])
        } else {
            None
        }
    }

    /// The next token is `p`.
    fn at(&self, p: Punct) -> (r: bool)
        ensures
            r == is_p(self.t(), self.pos as int, p),
    {
        match self.peek() {
            Some(Tok::Punct(q)) => *q == p,
            _ => false,
        }
    }

    /// The token behind the next one is `p`.
    fn at2(&self, p: Punct) -> (r: bool)
        ensures
            r == is_p(self.t(), self.pos + 1, p),
    {
        match self.peek2() {
            Some(Tok::Punct(q)) => *q == p,
            _ => false,
        }
    }

    /// Moves behind the next token.
    fn advance(&mut self)
        requires
            old(self).pos < old(self).t().len(),
        ensures
            final(self).after(old(self)),
            final(self).pos == old(self).pos + 1,
    {
        if self.pos < self.toks.len() {
            self.pos = self.pos + 1;
        }
    }

    /// Takes the next token.
    pub fn next(&mut self) -> (r: Result<Tok, String>)
        requires
            old(self).ok(),
        ensures
            final(self).after(old(self)),
            match r {
                Ok(t) => {
                    &&& old(self).pos < old(self).toks@.len()
                    &&& t@ == old(self).t()[old(self).pos as int]
                    &&& final(self).pos == old(self).pos + 1
                },
                Err(m) => m@ == "unexpected end of input"@ && old(self).pos == old(self).toks@.len()
                    && *final(self) == *old(self),
            },
    {
        if self.pos < self.toks.len() {
            let t = copy_tok(&self.toks[self.pos]);
            self.pos = self.pos + 1;
            Ok(t)
        } else {
            Err("unexpected end of input".to_owned())
        }
    }

    /// Takes the token `p`.
    pub fn expect(&mut self, p: Punct) -> (r: Result<(), String>)
        requires
            old(self).ok(),
        ensures
            final(self).after(old(self)),
            read_unit(r, p_expect(old(self).t(), old(self).pos as int, p), final(self).pos),
            r is Ok ==> old(self).pos < final(self).pos,
    {
        let got = self.next()?;
        match got {
            Tok::Punct(q) => {
                if q == p {
                    return Ok(());
                }
            },
            _ => {},
        }
        let mut m: String = "expected ".to_owned();
        let want: String = describe(&Tok::Punct(p));
        m.append(want.as_str());
        m.append(", got ");
        let have: String = describe(&got);
        m.append(have.as_str());
        Err(m)
    }

    /// The next token is the word `kw`.
    pub fn at_kw(&self, kw: &str) -> (r: bool)
        ensures
            r == is_kw(self.t(), self.pos as int, kw@),
    {
        match self.peek() {
            Some(Tok::Ident(s)) => text_eq(s.as_str(), kw),
            _ => false,
        }
    }

    /// How messages show the next token.
    fn shown(&self) -> (r: String)
        ensures
            r@ == peek_text(self.t(), self.pos as int),
    {
        match self.peek() {
            Some(t) => {
                let mut m: String = "Some(".to_owned();
                let d: String = describe(t);
                m.append(d.as_str());
                m.append(")");
                m
            },
            None => "None".to_owned(),
        }
    }

    /// Takes the word `kw`.
    pub fn eat_kw(&mut self, kw: &str) -> (r: Result<(), String>)
        requires
            old(self).ok(),
        ensures
            final(self).after(old(self)),
            read_unit(r, p_eat(old(self).t(), old(self).pos as int, kw@), final(self).pos),
            r is Ok ==> old(self).pos < final(self).pos,
    {
        if self.at_kw(kw) {
            self.advance();
            Ok(())
        } else {
            let mut m: String = "expected keyword '".to_owned();
            m.append(kw);
            m.append("', got ");
            let d: String = self.shown();
            m.append(d.as_str());
            Err(m)
        }
    }

    /// Takes an identifier.
    pub fn ident(&mut self) -> (r: Result<String, String>)
        requires
            old(self).ok(),
        ensures
            final(self).after(old(self)),
            match (r, p_ident(old(self).t(), old(self).pos as int)) {
                (Ok(s), Ok((v, j))) => s@ == v && final(self).pos == j,
                (Err(m), Err(w)) => m@ == w,
                _ => false,
            },
            r is Ok ==> old(self).pos < final(self).pos,
    {
        match self.next()? {
            Tok::Ident(s) => Ok(s),
            t => {
                let mut m: String = "expected identifier, got ".to_owned();
                let d: String = describe(&t);
                m.append(d.as_str());
                Err(m)
            },
        }
    }

    /// Takes a comma, if it is next.
    fn comma(&mut self)
        requires
            old(self).ok(),
        ensures
            final(self).after(old(self)),
            final(self).pos == skip_comma(old(self).t(), old(self).pos as int),
    {
        if self.at(Punct::Comma) {
            self.advance();
        }
    }

    /// Takes names up to `close`.
    fn names(&mut self, close: Punct) -> (r: Result<Vec<String>, String>)
        requires
            old(self).ok(),
        ensures
            final(self).after(old(self)),
            read_names(r, p_names(old(self).t(), old(self).pos as int, close), final(self).pos),
    {
        let mut out: Vec<String> = Vec::new();
        let ghost start = self.pos as int;
        proof {
            if let Ok((ss, k)) = p_names(self.t(), start, close) {
                assert(texts(out@) + ss =~= ss);
            }
        }
        while !self.at(close)
            invariant
                self.after(old(self)),
                start == old(self).pos,
                p_names(self.t(), start, close) == (match p_names(
                    self.t(),
                    self.pos as int,
                    close,
                ) {
                    Ok((ss, k)) => Ok::<(Seq<Seq<char>>, int), Seq<char>>((texts(out@) + ss, k)),
                    Err(m) => Err(m),
                }),
            decreases rem(self.t(), self.pos as int),
        {
            let ghost before = out@;
            let s: String = self.ident()?;
            out.push(s);
            self.comma();
            proof {
                if let Ok((ss, k)) = p_names(self.t(), self.pos as int, close) {
                    assert(texts(before) + (seq![s@] + ss) =~= texts(out@) + ss);
                }
            }
        }
        proof {
            assert(texts(out@) + Seq::<Seq<char>>::empty() =~= texts(out@));
        }
        Ok(out)
    }

    /// Takes `( name, ... )`.
    pub fn params(&mut self) -> (r: Result<Vec<String>, String>)
        requires
            old(self).ok(),
        ensures
            final(self).after(old(self)),
            read_names(r, p_params(old(self).t(), old(self).pos as int), final(self).pos),
            r is Ok ==> old(self).pos < final(self).pos,
    {
        self.expect(Punct::LParen)?;
        let names: Vec<String> = self.names(Punct::RParen)?;
        self.expect(Punct::RParen)?;
        Ok(names)
    }

    /// The operator of precedence `level` that is next.
    fn op(&self, level: u8) -> (r: Option<BinaryOp>)
        ensures
            r == op_at(self.t(), self.pos as int, level as int),
            r is Some ==> self.pos < self.t().len(),
    {
        match self.peek() {
            Some(Tok::Punct(p)) => {
                let (at, op): (u8, BinaryOp) = match *p {
                    Punct::OrOr => (0, BinaryOp::Or),
                    Punct::AndAnd => (1, BinaryOp::And),
                    Punct::Eq => (2, BinaryOp::Plain(BinOp::Eq)),
                    Punct::Ne => (2, BinaryOp::Plain(BinOp::Ne)),
                    Punct::Lt => (2, BinaryOp::Plain(BinOp::Lt)),
                    Punct::Gt => (2, BinaryOp::Plain(BinOp::Gt)),
                    Punct::Le => (2, BinaryOp::Plain(BinOp::Le)),
                    Punct::Ge => (2, BinaryOp::Plain(BinOp::Ge)),
                    Punct::DotDot => (3, BinaryOp::Plain(BinOp::Concat)),
                    Punct::Plus => (4, BinaryOp::Plain(BinOp::Add)),
                    Punct::Minus => (4, BinaryOp::Plain(BinOp::Sub)),
                    Punct::Star => (5, BinaryOp::Plain(BinOp::Mul)),
                    Punct::Slash => (5, BinaryOp::Plain(BinOp::Div)),
                    Punct::Percent => (5, BinaryOp::Plain(BinOp::Mod)),
                    _ => return None,
                };
                if at == level {
                    Some(op)
                } else {
                    None
                }
            },
            _ => None,
        }
    }

    /// Takes an expression.
    pub fn expr(&mut self) -> (r: Result<Expr, String>)
        requires
            old(self).ok(),
        ensures
            final(self).after(old(self)),
            read_expr(r, p_level(old(self).t(), old(self).pos as int, 0), final(self).pos),
            r is Ok ==> old(self).pos < final(self).pos,
        decreases rem(old(self).t(), old(self).pos as int), 13int,
    {
        self.level(0)
    }

    /// Takes an expression whose operators are of precedence `level` or higher.
    fn level(&mut self, level: u8) -> (r: Result<Expr, String>)
        requires
            old(self).ok(),
            level <= 6,
        ensures
            final(self).after(old(self)),
            read_expr(
                r,
                p_level(old(self).t(), old(self).pos as int, level as int),
                final(self).pos,
            ),
            r is Ok ==> old(self).pos < final(self).pos,
        decreases rem(old(self).t(), old(self).pos as int), 12 - level,
    {
        if level >= 6 {
            return self.unary_expr();
        }
        let mut lhs: Expr = self.level(level + 1)?;
        let ghost start = old(self).pos as int;
        loop
            invariant
                self.after(old(self)),
                old(self).pos < self.pos,
                start == old(self).pos,
                level < 6,
                p_level(self.t(), start, level as int) == p_rest(
                    self.t(),
                    self.pos as int,
                    level as int,
                    lhs@,
                ),
            decreases rem(self.t(), self.pos as int),
        {
            match self.op(level) {
                None => {
                    return Ok(lhs);
                },
                Some(op) => {
                    self.advance();
                    let operand: u8 = if level == 3 {
                        3
                    } else {
                        level + 1
                    };
                    let rhs: Expr = self.level(operand)?;
                    lhs = Expr::Binary(op, Box::new(lhs), Box::new(rhs));
                    if level == 2 || level == 3 {
                        return Ok(lhs);
                    }
                },
            }
        }
    }

    /// Takes `!` or `-` and their operand, or an expression with its postfixes.
    fn unary_expr(&mut self) -> (r: Result<Expr, String>)
        requires
            old(self).ok(),
        ensures
            final(self).after(old(self)),
            read_expr(r, p_unary(old(self).t(), old(self).pos as int), final(self).pos),
            r is Ok ==> old(self).pos < final(self).pos,
        decreases rem(old(self).t(), old(self).pos as int), 5int,
    {
        if self.at(Punct::Bang) {
            self.advance();
            let e: Expr = self.unary_expr()?;
            return Ok(Expr::Unary(UnOp::Not, Box::new(e)));
        }
        if self.at(Punct::Minus) {
            self.advance();
            let e: Expr = self.unary_expr()?;
            return Ok(Expr::Unary(UnOp::Neg, Box::new(e)));
        }
        self.postfix_expr()
    }

    /// Takes an expression with the calls, fields and indices behind it.
    fn postfix_expr(&mut self) -> (r: Result<Expr, String>)
        requires
            old(self).ok(),
            !is_p(old(self).t(), old(self).pos as int, Punct::Bang),
            !is_p(old(self).t(), old(self).pos as int, Punct::Minus),
        ensures
            final(self).after(old(self)),
            read_expr(r, p_unary(old(self).t(), old(self).pos as int), final(self).pos),
            r is Ok ==> old(self).pos < final(self).pos,
        decreases rem(old(self).t(), old(self).pos as int), 4int,
    {
        let mut e: Expr = self.primary()?;
        let ghost start = old(self).pos as int;
        loop
            invariant
                self.after(old(self)),
                old(self).pos < self.pos,
                start == old(self).pos,
                p_unary(self.t(), start) == p_postfix(self.t(), self.pos as int, e@),
            decreases rem(self.t(), self.pos as int),
        {
            if self.at(Punct::LParen) {
                self.advance();
                let args: Vec<Expr> = self.list(Punct::RParen)?;
                self.expect(Punct::RParen)?;
                e = Expr::Call(Box::new(e), args);
            } else if self.at(Punct::Dot) {
                self.advance();
                let name: String = self.ident()?;
                e = Expr::Field(Box::new(e), name);
            } else if self.at(Punct::LBracket) {
                self.advance();
                let ix: Expr = self.level(0)?;
                self.expect(Punct::RBracket)?;
                e = Expr::Index(Box::new(e), Box::new(ix));
            } else {
                return Ok(e);
            }
        }
    }

    /// Takes expressions up to `close`.
    fn list(&mut self, close: Punct) -> (r: Result<Vec<Expr>, String>)
        requires
            old(self).ok(),
        ensures
            final(self).after(old(self)),
            match (r, p_list(old(self).t(), old(self).pos as int, close)) {
                (Ok(v), Ok((es, j))) => exprs_v(v) == es && final(self).pos == j,
                (Err(m), Err(w)) => m@ == w,
                _ => false,
            },
        decreases rem(old(self).t(), old(self).pos as int), 14int,
    {
        let mut out: Vec<Expr> = Vec::new();
        let ghost start = self.pos as int;
        proof {
            if let Ok((es, k)) = p_list(self.t(), start, close) {
                assert(exprs_v(out) + es =~= es);
            }
        }
        while !self.at(close)
            invariant
                self.after(old(self)),
                start == old(self).pos,
                p_list(self.t(), start, close) == (match p_list(self.t(), self.pos as int, close) {
                    Ok((es, k)) => Ok::<(Seq<ExprV>, int), Seq<char>>((exprs_v(out) + es, k)),
                    Err(m) => Err(m),
                }),
            decreases rem(self.t(), self.pos as int),
        {
            let ghost before = exprs_v(out);
            let e: Expr = self.level(0)?;
            out.push(e);
            self.comma();
            proof {
                if let Ok((es, k)) = p_list(self.t(), self.pos as int, close) {
                    assert(before + (seq![e@] + es) =~= exprs_v(out) + es);
                }
            }
        }
        proof {
            assert(exprs_v(out) + Seq::<ExprV>::empty() =~= exprs_v(out));
        }
        Ok(out)
    }

    /// Takes `name = expr` fields up to `}`.
    fn fields(&mut self) -> (r: Result<Vec<(String, Expr)>, String>)
        requires
            old(self).ok(),
        ensures
            final(self).after(old(self)),
            match (r, p_fields(old(self).t(), old(self).pos as int)) {
                (Ok(v), Ok((fs, j))) => fields_v(v) == fs && final(self).pos == j,
                (Err(m), Err(w)) => m@ == w,
                _ => false,
            },
        decreases rem(old(self).t(), old(self).pos as int), 14int,
    {
        let mut out: Vec<(String, Expr)> = Vec::new();
        let ghost start = self.pos as int;
        proof {
            if let Ok((es, k)) = p_fields(self.t(), start) {
                assert(fields_v(out) + es =~= es);
            }
        }
        while !self.at(Punct::RBrace)
            invariant
                self.after(old(self)),
                start == old(self).pos,
                p_fields(self.t(), start) == (match p_fields(self.t(), self.pos as int) {
                    Ok((es, k)) => Ok::<(Seq<(Seq<char>, ExprV)>, int), Seq<char>>(
                        (fields_v(out) + es, k),
                    ),
                    Err(m) => Err(m),
                }),
            decreases rem(self.t(), self.pos as int),
        {
            let ghost before = fields_v(out);
            let name: String = self.ident()?;
            self.expect(Punct::Assign)?;
            let e: Expr = self.level(0)?;
            let ghost field = (name@, e@);
            out.push((name, e));
            self.comma();
            proof {
                if let Ok((es, k)) = p_fields(self.t(), self.pos as int) {
                    assert(before + (seq![field] + es) =~= fields_v(out) + es);
                }
            }
        }
        proof {
            assert(fields_v(out) + Seq::<(Seq<char>, ExprV)>::empty() =~= fields_v(out));
        }
        Ok(out)
    }

    /// Takes a literal, a name, a lambda, or an expression in brackets.
    fn primary(&mut self) -> (r: Result<Expr, String>)
        requires
            old(self).ok(),
        ensures
            final(self).after(old(self)),
            read_expr(r, p_primary(old(self).t(), old(self).pos as int), final(self).pos),
            r is Ok ==> old(self).pos < final(self).pos,
        decreases rem(old(self).t(), old(self).pos as int), 3int,
    {
        if self.at_kw("fn") {
            self.advance();
            let params: Vec<String> = self.params()?;
            let body: Vec<Stmt> = self.block()?;
            return Ok(Expr::Fn(params, body));
        }
        match self.next()? {
            Tok::Num(n) => Ok(Expr::Num(n)),
            Tok::Str(s) => Ok(Expr::Str(s)),
            Tok::Keyword(s) => Ok(Expr::Str(s)),
            Tok::Ident(s) => if text_eq(s.as_str(), "true") {
                Ok(Expr::Bool(true))
            } else if text_eq(s.as_str(), "false") {
                Ok(Expr::Bool(false))
            } else if text_eq(s.as_str(), "nil") {
                Ok(Expr::Nil)
            } else {
                Ok(Expr::Ident(s))
            },
            Tok::Punct(Punct::LParen) => {
                let e: Expr = self.level(0)?;
                self.expect(Punct::RParen)?;
                Ok(e)
            },
            Tok::Punct(Punct::LBrace) => {
                let fs: Vec<(String, Expr)> = self.fields()?;
                self.expect(Punct::RBrace)?;
                Ok(Expr::Table(fs))
            },
            Tok::Punct(Punct::LBracket) => {
                let es: Vec<Expr> = self.list(Punct::RBracket)?;
                self.expect(Punct::RBracket)?;
                Ok(Expr::Array(es))
            },
            Tok::Punct(p) => {
                let mut m: String = "unexpected token in expression: ".to_owned();
                let d: String = describe(&Tok::Punct(p));
                m.append(d.as_str());
                Err(m)
            },
        }
    }

    /// Takes `{ stmt* }`.
    pub fn block(&mut self) -> (r: Result<Vec<Stmt>, String>)
        requires
            old(self).ok(),
        ensures
            final(self).after(old(self)),
            read_stmts(r, p_block(old(self).t(), old(self).pos as int), final(self).pos),
            r is Ok ==> old(self).pos < final(self).pos,
        decreases rem(old(self).t(), old(self).pos as int), 22int,
    {
        self.expect(Punct::LBrace)?;
        let ss: Vec<Stmt> = self.stmts()?;
        self.expect(Punct::RBrace)?;
        Ok(ss)
    }

    /// Takes statements up to `}`.
    fn stmts(&mut self) -> (r: Result<Vec<Stmt>, String>)
        requires
            old(self).ok(),
        ensures
            final(self).after(old(self)),
            read_stmts(r, p_stmts(old(self).t(), old(self).pos as int), final(self).pos),
        decreases rem(old(self).t(), old(self).pos as int), 21int,
    {
        let mut out: Vec<Stmt> = Vec::new();
        let ghost start = self.pos as int;
        proof {
            if let Ok((es, k)) = p_stmts(self.t(), start) {
                assert(stmts_v(out) + es =~= es);
            }
        }
        while !self.at(Punct::RBrace)
            invariant
                self.after(old(self)),
                start == old(self).pos,
                p_stmts(self.t(), start) == (match p_stmts(self.t(), self.pos as int) {
                    Ok((es, k)) => Ok::<(Seq<StmtV>, int), Seq<char>>((stmts_v(out) + es, k)),
                    Err(m) => Err(m),
                }),
            decreases rem(self.t(), self.pos as int),
        {
            let ghost before = stmts_v(out);
            let ghost had = out;
            let s: Stmt = self.stmt()?;
            let ghost sv = s@;
            out.push(s);
            proof {
                lemma_stmts_push(had, out, s);
                if let Ok((es, k)) = p_stmts(self.t(), self.pos as int) {
                    assert(before + (seq![sv] + es) =~= stmts_v(out) + es);
                }
            }
        }
        proof {
            assert(stmts_v(out) + Seq::<StmtV>::empty() =~= stmts_v(out));
        }
        Ok(out)
    }

    /// Takes an expression and the `;` behind it.
    fn expr_semi(&mut self) -> (r: Result<Expr, String>)
        requires
            old(self).ok(),
        ensures
            final(self).after(old(self)),
            read_expr(r, p_expr_semi(old(self).t(), old(self).pos as int), final(self).pos),
            r is Ok ==> old(self).pos < final(self).pos,
        decreases rem(old(self).t(), old(self).pos as int), 15int,
    {
        let e: Expr = self.level(0)?;
        self.expect(Punct::Semi)?;
        Ok(e)
    }

    /// Takes an expression in round brackets.
    fn expr_paren(&mut self) -> (r: Result<Expr, String>)
        requires
            old(self).ok(),
        ensures
            final(self).after(old(self)),
            read_expr(r, p_expr_paren(old(self).t(), old(self).pos as int), final(self).pos),
            r is Ok ==> old(self).pos < final(self).pos,
        decreases rem(old(self).t(), old(self).pos as int), 15int,
    {
        self.expect(Punct::LParen)?;
        let e: Expr = self.level(0)?;
        self.expect(Punct::RParen)?;
        Ok(e)
    }

    /// Takes `name = expr ;`.
    fn binding(&mut self) -> (r: Result<(String, Expr), String>)
        requires
            old(self).ok(),
        ensures
            final(self).after(old(self)),
            match (r, p_binding(old(self).t(), old(self).pos as int)) {
                (Ok((n, e)), Ok(((m, v), j))) => n@ == m && e@ == v && final(self).pos == j,
                (Err(m), Err(w)) => m@ == w,
                _ => false,
            },
            r is Ok ==> old(self).pos < final(self).pos,
        decreases rem(old(self).t(), old(self).pos as int), 16int,
    {
        let name: String = self.ident()?;
        self.expect(Punct::Assign)?;
        let e: Expr = self.expr_semi()?;
        Ok((name, e))
    }

    /// Takes an expression and the block behind it.
    fn head_block(&mut self) -> (r: Result<(Expr, Vec<Stmt>), String>)
        requires
            old(self).ok(),
        ensures
            final(self).after(old(self)),
            match (r, p_head_block(old(self).t(), old(self).pos as int)) {
                (Ok((e, b)), Ok(((v, w), j))) => e@ == v && stmts_v(b) == w && final(self).pos == j,
                (Err(m), Err(w)) => m@ == w,
                _ => false,
            },
            r is Ok ==> old(self).pos < final(self).pos,
        decreases rem(old(self).t(), old(self).pos as int), 16int,
    {
        let e: Expr = self.level(0)?;
        let body: Vec<Stmt> = self.block()?;
        Ok((e, body))
    }

    /// Takes the target of a cast.
    fn target(&mut self) -> (r: Result<CastTarget, String>)
        requires
            old(self).ok(),
        ensures
            final(self).after(old(self)),
            match (r, p_target(old(self).t(), old(self).pos as int)) {
                (Ok(c), Ok((v, j))) => c@ == v && final(self).pos == j,
                (Err(m), Err(w)) => m@ == w,
                _ => false,
            },
            r is Ok ==> old(self).pos < final(self).pos,
        decreases rem(old(self).t(), old(self).pos as int), 16int,
    {
        if self.at_kw("browsers") {
            self.advance();
            Ok(CastTarget::Browsers)
        } else if self.at_kw("server") {
            self.advance();
            Ok(CastTarget::Server)
        } else if self.at_kw("session") {
            self.advance();
            let e: Expr = self.expr_paren()?;
            Ok(CastTarget::Session(e))
        } else if self.at_kw("user") {
            self.advance();
            let e: Expr = self.expr_paren()?;
            Ok(CastTarget::User(e))
        } else {
            let mut m: String = "expected cast target, got ".to_owned();
            let d: String = self.shown();
            m.append(d.as_str());
            Err(m)
        }
    }

    /// Takes a statement.
    pub fn stmt(&mut self) -> (r: Result<Stmt, String>)
        requires
            old(self).ok(),
        ensures
            final(self).after(old(self)),
            read_stmt(r, p_stmt(old(self).t(), old(self).pos as int), final(self).pos),
            r is Ok ==> old(self).pos < final(self).pos,
        decreases rem(old(self).t(), old(self).pos as int), 20int,
    {
        if (self.at_kw("server") || self.at_kw("browser")) && self.at2(Punct::Bang) {
            let side: Side = if self.at_kw("server") {
                Side::Server
            } else {
                Side::Browser
            };
            self.advance();
            self.advance();
            self.expect(Punct::LParen)?;
            self.expect(Punct::RParen)?;
            self.expect(Punct::Semi)?;
            return Ok(Stmt::Mark(side));
        }
        if self.at_kw("let") {
            self.advance();
            let (name, e) = self.binding()?;
            return Ok(Stmt::Let(name, e));
        }
        if self.at_kw("return") {
            self.advance();
            if self.at(Punct::Semi) {
                self.advance();
                return Ok(Stmt::Return(None));
            }
            let e: Expr = self.expr_semi()?;
            return Ok(Stmt::Return(Some(e)));
        }
        if self.at_kw("if") {
            return self.if_stmt();
        }
        if self.at_kw("match") {
            return self.match_stmt();
        }
        if self.at_kw("for") {
            self.advance();
            let k: String = self.ident()?;
            self.expect(Punct::Comma)?;
            let v: String = self.ident()?;
            self.eat_kw("in")?;
            let (e, body) = self.head_block()?;
            return Ok(Stmt::For(k, v, e, body));
        }
        if self.at_kw("while") {
            self.advance();
            let (c, body) = self.head_block()?;
            return Ok(Stmt::While(c, body));
        }
        if self.at_kw("cast") {
            self.advance();
            let target: CastTarget = self.target()?;
            let body: Vec<Stmt> = self.block()?;
            return Ok(Stmt::Cast(target, body));
        }
        if self.at_kw("spawn") {
            self.advance();
            let e: Expr = self.level(0)?;
            match &e {
                Expr::Call(_, _) => {},
                _ => {
                    return Err("spawn expects a function call".to_owned());
                },
            }
            self.expect(Punct::Semi)?;
            return Ok(Stmt::Spawn(e));
        }
        self.simple()
    }

    /// Takes an expression statement or an assignment.
    fn simple(&mut self) -> (r: Result<Stmt, String>)
        requires
            old(self).ok(),
        ensures
            final(self).after(old(self)),
            read_stmt(r, p_simple(old(self).t(), old(self).pos as int), final(self).pos),
            r is Ok ==> old(self).pos < final(self).pos,
        decreases rem(old(self).t(), old(self).pos as int), 18int,
    {
        let e: Expr = self.level(0)?;
        if self.at(Punct::Assign) {
            self.advance();
            let rhs: Expr = self.expr_semi()?;
            return match &e {
                Expr::Ident(_) | Expr::Field(_, _) | Expr::Index(_, _) => Ok(Stmt::Assign(e, rhs)),
                _ => Err("invalid assignment target".to_owned()),
            };
        }
        self.expect(Punct::Semi)?;
        Ok(Stmt::Expr(e))
    }

    /// Takes an `if` with its `else`.
    fn if_stmt(&mut self) -> (r: Result<Stmt, String>)
        requires
            old(self).ok(),
        ensures
            final(self).after(old(self)),
            read_stmt(r, p_if(old(self).t(), old(self).pos as int), final(self).pos),
            r is Ok ==> old(self).pos < final(self).pos,
        decreases rem(old(self).t(), old(self).pos as int), 19int,
    {
        self.eat_kw("if")?;
        let (c, yes) = self.head_block()?;
        if !self.at_kw("else") {
            return Ok(Stmt::If(c, yes, None));
        }
        self.advance();
        let mut no: Vec<Stmt> = Vec::new();
        if self.at_kw("if") {
            let s: Stmt = self.if_stmt()?;
            no.push(s);
            assert(stmts_v(no) =~= seq![s@]);
        } else {
            no = self.block()?;
        }
        Ok(Stmt::If(c, yes, Some(no)))
    }

    /// Takes `=> block`.
    fn arrow_block(&mut self) -> (r: Result<Vec<Stmt>, String>)
        requires
            old(self).ok(),
        ensures
            final(self).after(old(self)),
            read_stmts(r, p_arrow_block(old(self).t(), old(self).pos as int), final(self).pos),
            r is Ok ==> old(self).pos < final(self).pos,
        decreases rem(old(self).t(), old(self).pos as int), 23int,
    {
        self.expect(Punct::FatArrow)?;
        self.block()
    }

    /// Takes the destructured fields of an arm, if it has any.
    fn arm_fields(&mut self) -> (r: Result<Vec<String>, String>)
        requires
            old(self).ok(),
        ensures
            final(self).after(old(self)),
            read_names(r, p_arm_fields(old(self).t(), old(self).pos as int), final(self).pos),
    {
        if self.at(Punct::LBrace) {
            self.advance();
            let fs: Vec<String> = self.names(Punct::RBrace)?;
            self.expect(Punct::RBrace)?;
            Ok(fs)
        } else {
            let fs: Vec<String> = Vec::new();
            assert(texts(fs@) =~= Seq::<Seq<char>>::empty());
            Ok(fs)
        }
    }

    /// Takes an arm.
    fn arm(&mut self) -> (r: Result<MatchArm, String>)
        requires
            old(self).ok(),
        ensures
            final(self).after(old(self)),
            match (r, p_arm(old(self).t(), old(self).pos as int)) {
                (Ok(a), Ok((v, j))) => a@ == v && final(self).pos == j,
                (Err(m), Err(w)) => m@ == w,
                _ => false,
            },
            r is Ok ==> old(self).pos < final(self).pos,
        decreases rem(old(self).t(), old(self).pos as int), 24int,
    {
        if self.at_kw("else") {
            self.advance();
            let body: Vec<Stmt> = self.arrow_block()?;
            let fields: Vec<String> = Vec::new();
            assert(texts(fields@) =~= Seq::<Seq<char>>::empty());
            Ok(MatchArm { tag: None, fields, body })
        } else {
            let tag: String = self.ident()?;
            let fields: Vec<String> = self.arm_fields()?;
            let body: Vec<Stmt> = self.arrow_block()?;
            Ok(MatchArm { tag: Some(tag), fields, body })
        }
    }

    /// Takes a `match` with its arms.
    fn match_stmt(&mut self) -> (r: Result<Stmt, String>)
        requires
            old(self).ok(),
        ensures
            final(self).after(old(self)),
            read_stmt(r, p_match(old(self).t(), old(self).pos as int), final(self).pos),
            r is Ok ==> old(self).pos < final(self).pos,
        decreases rem(old(self).t(), old(self).pos as int), 19int,
    {
        self.eat_kw("match")?;
        let subject: Expr = self.level(0)?;
        self.expect(Punct::LBrace)?;
        let mut arms: Vec<MatchArm> = Vec::new();
        let mut saw_else = false;
        let ghost start = self.pos as int;
        proof {
            if let Ok((es, k)) = p_arms(self.t(), start, false) {
                assert(arms_v(arms) + es =~= es);
            }
        }
        while !self.at(Punct::RBrace)
            invariant
                self.after(old(self)),
                old(self).pos < start <= self.pos,
                p_arms(self.t(), start, false) == (match p_arms(
                    self.t(),
                    self.pos as int,
                    saw_else,
                ) {
                    Ok((es, k)) => Ok::<(Seq<MatchArmV>, int), Seq<char>>((arms_v(arms) + es, k)),
                    Err(m) => Err(m),
                }),
                p_match(self.t(), old(self).pos as int) == (match p_arms(self.t(), start, false) {
                    Err(m) => Err(m),
                    Ok((es, d)) => match p_expect(self.t(), d, Punct::RBrace) {
                        Err(m) => Err(m),
                        Ok(e) => Ok((StmtV::Match(subject@, es), e)),
                    },
                }),
            decreases rem(self.t(), self.pos as int),
        {
            if saw_else {
                return Err("match: `else` must be the last arm".to_owned());
            }
            let ghost before = arms_v(arms);
            let a: MatchArm = self.arm()?;
            let ghost av = a@;
            saw_else = a.tag.is_none();
            arms.push(a);
            proof {
                if let Ok((es, k)) = p_arms(self.t(), self.pos as int, saw_else) {
                    assert(before + (seq![av] + es) =~= arms_v(arms) + es);
                }
            }
        }
        proof {
            assert(arms_v(arms) + Seq::<MatchArmV>::empty() =~= arms_v(arms));
        }
        self.expect(Punct::RBrace)?;
        Ok(Stmt::Match(subject, arms))
    }

    /// Takes one item.
    fn item(&mut self) -> (r: Result<Item, String>)
        requires
            old(self).ok(),
        ensures
            final(self).after(old(self)),
            match (r, p_item(old(self).t(), old(self).pos as int)) {
                (Ok(a), Ok((v, j))) => a@ == v && final(self).pos == j,
                (Err(m), Err(w)) => m@ == w,
                _ => false,
            },
            r is Ok ==> old(self).pos < final(self).pos,
    {
        if self.at_kw("server") {
            self.advance();
            self.eat_kw("let")?;
            let (name, e) = self.binding()?;
            Ok(Item::ServerLet(name, e))
        } else if self.at_kw("fn") {
            self.advance();
            let name: String = self.ident()?;
            let params: Vec<String> = self.params()?;
            let body: Vec<Stmt> = self.block()?;
            Ok(Item::Fn(name, params, body))
        } else {
            let mut m: String = "expected item, got ".to_owned();
            let d: String = self.shown();
            m.append(d.as_str());
            Err(m)
        }
    }

    /// Takes all items.
    pub fn items(&mut self) -> (r: Result<Vec<Item>, String>)
        requires
            old(self).ok(),
        ensures
            match (r, p_items(old(self).t(), old(self).pos as int)) {
                (Ok(v), Ok(s)) => items_v(v@) == s,
                (Err(m), Err(w)) => m@ == w,
                _ => false,
            },
    {
        let mut out: Vec<Item> = Vec::new();
        let ghost start = self.pos as int;
        proof {
            if let Ok(es) = p_items(self.t(), start) {
                assert(items_v(out@) + es =~= es);
            }
        }
        while self.pos < self.toks.len()
            invariant
                self.after(old(self)),
                start == old(self).pos,
                p_items(self.t(), start) == (match p_items(self.t(), self.pos as int) {
                    Ok(es) => Ok::<Seq<ItemV>, Seq<char>>(items_v(out@) + es),
                    Err(m) => Err(m),
                }),
            decreases rem(self.t(), self.pos as int),
        {
            let ghost before = items_v(out@);
            let item: Item = self.item()?;
            let ghost iv = item@;
            out.push(item);
            proof {
                if let Ok(es) = p_items(self.t(), self.pos as int) {
                    assert(before + (seq![iv] + es) =~= items_v(out@) + es);
                }
            }
        }
        proof {
            assert(items_v(out@) + Seq::<ItemV>::empty() =~= items_v(out@));
        }
        Ok(out)
    }
}

/// The items of `v`.
pub open spec fn items_v(v: Seq<Item>) -> Seq<ItemV> {
    v.map_values(|i: Item| i@)
}

} // verus!
