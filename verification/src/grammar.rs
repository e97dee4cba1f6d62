//! The grammar of `.hop` source, as functions from a token sequence and a
//! place in it to what stands there and the place behind it.

use crate::ast::{BinaryOp, CastTargetV, ExprV, ItemV, MatchArmV, Side, StmtV};
use crate::ir::{BinOp, UnOp};
use crate::lexer::{punct_name, tok_text, Punct, TokV};
use vstd::prelude::*;

verus! {

/// How many tokens are left from `i` on.
pub open spec fn rem(t: Seq<TokV>, i: int) -> nat {
    if 0 <= i <= t.len() {
        (t.len() - i) as nat
    } else {
        0
    }
}

/// The token at `i` is `p`.
pub open spec fn is_p(t: Seq<TokV>, i: int, p: Punct) -> bool {
    0 <= i < t.len() && t[i] == TokV::Punct(p)
}

/// The token at `i` is the word `kw`.
pub open spec fn is_kw(t: Seq<TokV>, i: int, kw: Seq<char>) -> bool {
    0 <= i < t.len() && t[i] == TokV::Ident(kw)
}

pub open spec fn at_end() -> Seq<char> {
    "unexpected end of input"@
}

/// How messages show what may stand at `i`.
pub open spec fn peek_text(t: Seq<TokV>, i: int) -> Seq<char> {
    if 0 <= i < t.len() {
        "Some("@ + tok_text(t[i]) + ")"@
    } else {
        "None"@
    }
}

/// Behind the token `p` at `i`.
pub open spec fn p_expect(t: Seq<TokV>, i: int, p: Punct) -> Result<int, Seq<char>> {
    if !(0 <= i < t.len()) {
        Err(at_end())
    } else if t[i] == TokV::Punct(p) {
        Ok(i + 1)
    } else {
        Err("expected "@ + punct_name(p) + ", got "@ + tok_text(t[i]))
    }
}

/// Behind the word `kw` at `i`.
pub open spec fn p_eat(t: Seq<TokV>, i: int, kw: Seq<char>) -> Result<int, Seq<char>> {
    if is_kw(t, i, kw) {
        Ok(i + 1)
    } else {
        Err("expected keyword '"@ + kw + "', got "@ + peek_text(t, i))
    }
}

/// The identifier at `i`.
pub open spec fn p_ident(t: Seq<TokV>, i: int) -> Result<(Seq<char>, int), Seq<char>> {
    if !(0 <= i < t.len()) {
        Err(at_end())
    } else {
        match t[i] {
            TokV::Ident(s) => Ok((s, i + 1)),
            _ => Err("expected identifier, got "@ + tok_text(t[i])),
        }
    }
}

/// Behind a comma at `i`, if there is one.
pub open spec fn skip_comma(t: Seq<TokV>, i: int) -> int {
    if is_p(t, i, Punct::Comma) {
        i + 1
    } else {
        i
    }
}

/// Names, each with an optional comma behind it, up to `close`.
pub open spec fn p_names(t: Seq<TokV>, i: int, close: Punct) -> Result<
    (Seq<Seq<char>>, int),
    Seq<char>,
>
    decreases rem(t, i),
{
    if is_p(t, i, close) {
        Ok((Seq::empty(), i))
    } else {
        match p_ident(t, i) {
            Err(m) => Err(m),
            Ok((s, j)) => match p_names(t, skip_comma(t, j), close) {
                Err(m) => Err(m),
                Ok((ss, k)) => Ok((seq![s] + ss, k)),
            },
        }
    }
}

/// `( name, ... )`.
pub open spec fn p_params(t: Seq<TokV>, i: int) -> Result<(Seq<Seq<char>>, int), Seq<char>> {
    match p_expect(t, i, Punct::LParen) {
        Err(m) => Err(m),
        Ok(j) => match p_names(t, j, Punct::RParen) {
            Err(m) => Err(m),
            Ok((ss, k)) => match p_expect(t, k, Punct::RParen) {
                Err(m) => Err(m),
                Ok(e) => Ok((ss, e)),
            },
        },
    }
}

/// The binary operator at `i` of precedence `level`, from `||` (0) over `&&`,
/// comparisons, `..` and `+ -` to `* / %` (5).
pub open spec fn op_at(t: Seq<TokV>, i: int, level: int) -> Option<BinaryOp> {
    if !(0 <= i < t.len()) {
        None
    } else {
        match t[i] {
            TokV::Punct(p) => op_of(p, level),
            _ => None,
        }
    }
}

pub open spec fn op_of(p: Punct, level: int) -> Option<BinaryOp> {
    match p {
        Punct::OrOr => if level == 0 { Some(BinaryOp::Or) } else { None },
        Punct::AndAnd => if level == 1 { Some(BinaryOp::And) } else { None },
        Punct::Eq => if level == 2 { Some(BinaryOp::Plain(BinOp::Eq)) } else { None },
        Punct::Ne => if level == 2 { Some(BinaryOp::Plain(BinOp::Ne)) } else { None },
        Punct::Lt => if level == 2 { Some(BinaryOp::Plain(BinOp::Lt)) } else { None },
        Punct::Gt => if level == 2 { Some(BinaryOp::Plain(BinOp::Gt)) } else { None },
        Punct::Le => if level == 2 { Some(BinaryOp::Plain(BinOp::Le)) } else { None },
        Punct::Ge => if level == 2 { Some(BinaryOp::Plain(BinOp::Ge)) } else { None },
        Punct::DotDot => if level == 3 { Some(BinaryOp::Plain(BinOp::Concat)) } else { None },
        Punct::Plus => if level == 4 { Some(BinaryOp::Plain(BinOp::Add)) } else { None },
        Punct::Minus => if level == 4 { Some(BinaryOp::Plain(BinOp::Sub)) } else { None },
        Punct::Star => if level == 5 { Some(BinaryOp::Plain(BinOp::Mul)) } else { None },
        Punct::Slash => if level == 5 { Some(BinaryOp::Plain(BinOp::Div)) } else { None },
        Punct::Percent => if level == 5 { Some(BinaryOp::Plain(BinOp::Mod)) } else { None },
        _ => None,
    }
}

/// An expression whose binary operators are of precedence `level` or higher.
pub open spec fn p_level(t: Seq<TokV>, i: int, level: int) -> Result<(ExprV, int), Seq<char>>
    decreases rem(t, i), (if level < 6 { 12 - level } else { 6 }),
{
    if level >= 6 || level < 0 {
        p_unary(t, i)
    } else {
        match p_level(t, i, level + 1) {
            Err(m) => Err(m),
            Ok((lhs, j)) => if 0 <= i < j <= t.len() {
                p_rest(t, j, level, lhs)
            } else {
                Err(at_end())
            },
        }
    }
}

/// What may follow the operand `lhs`: comparisons take one operator, `..`
/// groups to the right, the others to the left.
pub open spec fn p_rest(t: Seq<TokV>, i: int, level: int, lhs: ExprV) -> Result<
    (ExprV, int),
    Seq<char>,
>
    decreases rem(t, i), 13int,
{
    match op_at(t, i, level) {
        None => Ok((lhs, i)),
        Some(op) => {
            let operand = if level == 3 {
                3
            } else {
                level + 1
            };
            match p_level(t, i + 1, operand) {
                Err(m) => Err(m),
                Ok((rhs, j)) => {
                    let e = ExprV::Binary(op, Box::new(lhs), Box::new(rhs));
                    if level == 2 || level == 3 {
                        Ok((e, j))
                    } else if 0 <= i < j <= t.len() {
                        p_rest(t, j, level, e)
                    } else {
                        Err(at_end())
                    }
                },
            }
        },
    }
}

/// `!`, `-`, or an expression with its postfixes.
pub open spec fn p_unary(t: Seq<TokV>, i: int) -> Result<(ExprV, int), Seq<char>>
    decreases rem(t, i), 5int,
{
    if is_p(t, i, Punct::Bang) {
        match p_unary(t, i + 1) {
            Err(m) => Err(m),
            Ok((e, j)) => Ok((ExprV::Unary(UnOp::Not, Box::new(e)), j)),
        }
    } else if is_p(t, i, Punct::Minus) {
        match p_unary(t, i + 1) {
            Err(m) => Err(m),
            Ok((e, j)) => Ok((ExprV::Unary(UnOp::Neg, Box::new(e)), j)),
        }
    } else {
        match p_primary(t, i) {
            Err(m) => Err(m),
            Ok((e, j)) => if 0 <= i < j <= t.len() {
                p_postfix(t, j, e)
            } else {
                Err(at_end())
            },
        }
    }
}

/// Calls, fields and indices behind `e`.
pub open spec fn p_postfix(t: Seq<TokV>, i: int, e: ExprV) -> Result<(ExprV, int), Seq<char>>
    decreases rem(t, i), 4int,
{
    if is_p(t, i, Punct::LParen) {
        match p_list(t, i + 1, Punct::RParen) {
            Err(m) => Err(m),
            Ok((args, j)) => match p_expect(t, j, Punct::RParen) {
                Err(m) => Err(m),
                Ok(k) => if 0 <= i < k <= t.len() {
                    p_postfix(t, k, ExprV::Call(Box::new(e), args))
                } else {
                    Err(at_end())
                },
            },
        }
    } else if is_p(t, i, Punct::Dot) {
        match p_ident(t, i + 1) {
            Err(m) => Err(m),
            Ok((name, j)) => p_postfix(t, j, ExprV::Field(Box::new(e), name)),
        }
    } else if is_p(t, i, Punct::LBracket) {
        match p_level(t, i + 1, 0) {
            Err(m) => Err(m),
            Ok((ix, j)) => match p_expect(t, j, Punct::RBracket) {
                Err(m) => Err(m),
                Ok(k) => if 0 <= i < k <= t.len() {
                    p_postfix(t, k, ExprV::Index(Box::new(e), Box::new(ix)))
                } else {
                    Err(at_end())
                },
            },
        }
    } else {
        Ok((e, i))
    }
}

/// Expressions, each with an optional comma behind it, up to `close`.
pub open spec fn p_list(t: Seq<TokV>, i: int, close: Punct) -> Result<(Seq<ExprV>, int), Seq<char>>
    decreases rem(t, i), 14int,
{
    if is_p(t, i, close) {
        Ok((Seq::empty(), i))
    } else {
        match p_level(t, i, 0) {
            Err(m) => Err(m),
            Ok((e, j)) => if 0 <= i < j <= t.len() {
                match p_list(t, skip_comma(t, j), close) {
                    Err(m) => Err(m),
                    Ok((es, k)) => Ok((seq![e] + es, k)),
                }
            } else {
                Err(at_end())
            },
        }
    }
}

/// `name = expr` fields, each with an optional comma behind it, up to `}`.
pub open spec fn p_fields(t: Seq<TokV>, i: int) -> Result<
    (Seq<(Seq<char>, ExprV)>, int),
    Seq<char>,
>
    decreases rem(t, i), 14int,
{
    if is_p(t, i, Punct::RBrace) {
        Ok((Seq::empty(), i))
    } else {
        match p_ident(t, i) {
            Err(m) => Err(m),
            Ok((name, a)) => match p_expect(t, a, Punct::Assign) {
                Err(m) => Err(m),
                Ok(b) => match p_level(t, b, 0) {
                    Err(m) => Err(m),
                    Ok((e, j)) => if 0 <= i < j <= t.len() {
                        match p_fields(t, skip_comma(t, j)) {
                            Err(m) => Err(m),
                            Ok((fs, k)) => Ok((seq![(name, e)] + fs, k)),
                        }
                    } else {
                        Err(at_end())
                    },
                },
            },
        }
    }
}

/// A literal, a name, a lambda, or an expression in brackets.
pub open spec fn p_primary(t: Seq<TokV>, i: int) -> Result<(ExprV, int), Seq<char>>
    decreases rem(t, i), 3int,
{
    if is_kw(t, i, "fn"@) {
        match p_params(t, i + 1) {
            Err(m) => Err(m),
            Ok((ps, j)) => if 0 <= i < j <= t.len() {
                match p_block(t, j) {
                    Err(m) => Err(m),
                    Ok((body, k)) => Ok((ExprV::Fn(ps, body), k)),
                }
            } else {
                Err(at_end())
            },
        }
    } else if !(0 <= i < t.len()) {
        Err(at_end())
    } else {
        match t[i] {
            TokV::Num(n) => Ok((ExprV::Num(n), i + 1)),
            TokV::Str(s) => Ok((ExprV::Str(s), i + 1)),
            TokV::Keyword(s) => Ok((ExprV::Str(s), i + 1)),
            TokV::Ident(s) => if s == "true"@ {
                Ok((ExprV::Bool(true), i + 1))
            } else if s == "false"@ {
                Ok((ExprV::Bool(false), i + 1))
            } else if s == "nil"@ {
                Ok((ExprV::Nil, i + 1))
            } else {
                Ok((ExprV::Ident(s), i + 1))
            },
            TokV::Punct(Punct::LParen) => match p_level(t, i + 1, 0) {
                Err(m) => Err(m),
                Ok((e, j)) => match p_expect(t, j, Punct::RParen) {
                    Err(m) => Err(m),
                    Ok(k) => Ok((e, k)),
                },
            },
            TokV::Punct(Punct::LBrace) => match p_fields(t, i + 1) {
                Err(m) => Err(m),
                Ok((fs, j)) => match p_expect(t, j, Punct::RBrace) {
                    Err(m) => Err(m),
                    Ok(k) => Ok((ExprV::Table(fs), k)),
                },
            },
            TokV::Punct(Punct::LBracket) => match p_list(t, i + 1, Punct::RBracket) {
                Err(m) => Err(m),
                Ok((es, j)) => match p_expect(t, j, Punct::RBracket) {
                    Err(m) => Err(m),
                    Ok(k) => Ok((ExprV::Array(es), k)),
                },
            },
            _ => Err("unexpected token in expression: "@ + tok_text(t[i])),
        }
    }
}

/// `{ stmt* }`.
pub open spec fn p_block(t: Seq<TokV>, i: int) -> Result<(Seq<StmtV>, int), Seq<char>>
    decreases rem(t, i), 22int,
{
    match p_expect(t, i, Punct::LBrace) {
        Err(m) => Err(m),
        Ok(j) => match p_stmts(t, j) {
            Err(m) => Err(m),
            Ok((ss, k)) => match p_expect(t, k, Punct::RBrace) {
                Err(m) => Err(m),
                Ok(e) => Ok((ss, e)),
            },
        },
    }
}

/// Statements up to `}`.
pub open spec fn p_stmts(t: Seq<TokV>, i: int) -> Result<(Seq<StmtV>, int), Seq<char>>
    decreases rem(t, i), 21int,
{
    if is_p(t, i, Punct::RBrace) {
        Ok((Seq::empty(), i))
    } else {
        match p_stmt(t, i) {
            Err(m) => Err(m),
            Ok((s, j)) => if 0 <= i < j <= t.len() {
                match p_stmts(t, j) {
                    Err(m) => Err(m),
                    Ok((ss, k)) => Ok((seq![s] + ss, k)),
                }
            } else {
                Err(at_end())
            },
        }
    }
}

/// An expression and the `;` behind it.
pub open spec fn p_expr_semi(t: Seq<TokV>, i: int) -> Result<(ExprV, int), Seq<char>>
    decreases rem(t, i), 15int,
{
    match p_level(t, i, 0) {
        Err(m) => Err(m),
        Ok((e, j)) => match p_expect(t, j, Punct::Semi) {
            Err(m) => Err(m),
            Ok(k) => Ok((e, k)),
        },
    }
}

/// An expression in round brackets.
pub open spec fn p_expr_paren(t: Seq<TokV>, i: int) -> Result<(ExprV, int), Seq<char>>
    decreases rem(t, i), 15int,
{
    match p_expect(t, i, Punct::LParen) {
        Err(m) => Err(m),
        Ok(j) => match p_level(t, j, 0) {
            Err(m) => Err(m),
            Ok((e, k)) => match p_expect(t, k, Punct::RParen) {
                Err(m) => Err(m),
                Ok(l) => Ok((e, l)),
            },
        },
    }
}

/// `let name = expr ;`, read behind `let`.
pub open spec fn p_binding(t: Seq<TokV>, i: int) -> Result<((Seq<char>, ExprV), int), Seq<char>>
    decreases rem(t, i), 16int,
{
    match p_ident(t, i) {
        Err(m) => Err(m),
        Ok((name, j)) => match p_expect(t, j, Punct::Assign) {
            Err(m) => Err(m),
            Ok(k) => match p_expr_semi(t, k) {
                Err(m) => Err(m),
                Ok((e, l)) => Ok(((name, e), l)),
            },
        },
    }
}

/// A placement mark, read behind `server !` or `browser !`.
pub open spec fn p_mark_tail(t: Seq<TokV>, i: int) -> Result<int, Seq<char>> {
    match p_expect(t, i, Punct::LParen) {
        Err(m) => Err(m),
        Ok(j) => match p_expect(t, j, Punct::RParen) {
            Err(m) => Err(m),
            Ok(k) => p_expect(t, k, Punct::Semi),
        },
    }
}

/// `k, v in expr block`, read behind `for`.
pub open spec fn p_for_tail(t: Seq<TokV>, i: int) -> Result<(StmtV, int), Seq<char>>
    decreases rem(t, i), 17int,
{
    match p_ident(t, i) {
        Err(m) => Err(m),
        Ok((k, a)) => match p_expect(t, a, Punct::Comma) {
            Err(m) => Err(m),
            Ok(b) => match p_ident(t, b) {
                Err(m) => Err(m),
                Ok((v, c)) => match p_eat(t, c, "in"@) {
                    Err(m) => Err(m),
                    Ok(d) => match p_head_block(t, d) {
                        Err(m) => Err(m),
                        Ok(((e, body), f)) => Ok((StmtV::For(k, v, e, body), f)),
                    },
                },
            },
        },
    }
}

/// An expression and the block behind it.
pub open spec fn p_head_block(t: Seq<TokV>, i: int) -> Result<((ExprV, Seq<StmtV>), int), Seq<char>>
    decreases rem(t, i), 16int,
{
    match p_level(t, i, 0) {
        Err(m) => Err(m),
        Ok((e, j)) => if 0 <= i < j <= t.len() {
            match p_block(t, j) {
                Err(m) => Err(m),
                Ok((body, k)) => Ok(((e, body), k)),
            }
        } else {
            Err(at_end())
        },
    }
}

/// The target of a cast.
pub open spec fn p_target(t: Seq<TokV>, i: int) -> Result<(CastTargetV, int), Seq<char>>
    decreases rem(t, i), 16int,
{
    if is_kw(t, i, "browsers"@) {
        Ok((CastTargetV::Browsers, i + 1))
    } else if is_kw(t, i, "server"@) {
        Ok((CastTargetV::Server, i + 1))
    } else if is_kw(t, i, "session"@) {
        match p_expr_paren(t, i + 1) {
            Err(m) => Err(m),
            Ok((e, j)) => Ok((CastTargetV::Session(e), j)),
        }
    } else if is_kw(t, i, "user"@) {
        match p_expr_paren(t, i + 1) {
            Err(m) => Err(m),
            Ok((e, j)) => Ok((CastTargetV::User(e), j)),
        }
    } else {
        Err("expected cast target, got "@ + peek_text(t, i))
    }
}

/// An expression statement or an assignment.
pub open spec fn p_simple(t: Seq<TokV>, i: int) -> Result<(StmtV, int), Seq<char>>
    decreases rem(t, i), 18int,
{
    match p_level(t, i, 0) {
        Err(m) => Err(m),
        Ok((e, j)) => if is_p(t, j, Punct::Assign) {
            if 0 <= i < j <= t.len() {
                match p_expr_semi(t, j + 1) {
                    Err(m) => Err(m),
                    Ok((rhs, k)) => if e is Ident || e is Field || e is Index {
                        Ok((StmtV::Assign(e, rhs), k))
                    } else {
                        Err("invalid assignment target"@)
                    },
                }
            } else {
                Err(at_end())
            }
        } else {
            match p_expect(t, j, Punct::Semi) {
                Err(m) => Err(m),
                Ok(k) => Ok((StmtV::Expr(e), k)),
            }
        },
    }
}

/// A statement.
pub open spec fn p_stmt(t: Seq<TokV>, i: int) -> Result<(StmtV, int), Seq<char>>
    decreases rem(t, i), 20int,
{
    if (is_kw(t, i, "server"@) || is_kw(t, i, "browser"@)) && is_p(t, i + 1, Punct::Bang) {
        match p_mark_tail(t, i + 2) {
            Err(m) => Err(m),
            Ok(j) => Ok(
                (
                    StmtV::Mark(
                        if is_kw(t, i, "server"@) {
                            Side::Server
                        } else {
                            Side::Browser
                        },
                    ),
                    j,
                ),
            ),
        }
    } else if is_kw(t, i, "let"@) {
        match p_binding(t, i + 1) {
            Err(m) => Err(m),
            Ok(((name, e), j)) => Ok((StmtV::Let(name, e), j)),
        }
    } else if is_kw(t, i, "return"@) {
        if is_p(t, i + 1, Punct::Semi) {
            Ok((StmtV::Return(None), i + 2))
        } else {
            match p_expr_semi(t, i + 1) {
                Err(m) => Err(m),
                Ok((e, j)) => Ok((StmtV::Return(Some(e)), j)),
            }
        }
    } else if is_kw(t, i, "if"@) {
        p_if(t, i)
    } else if is_kw(t, i, "match"@) {
        p_match(t, i)
    } else if is_kw(t, i, "for"@) {
        p_for_tail(t, i + 1)
    } else if is_kw(t, i, "while"@) {
        match p_head_block(t, i + 1) {
            Err(m) => Err(m),
            Ok(((c, body), j)) => Ok((StmtV::While(c, body), j)),
        }
    } else if is_kw(t, i, "cast"@) {
        match p_target(t, i + 1) {
            Err(m) => Err(m),
            Ok((target, j)) => if 0 <= i < j <= t.len() {
                match p_block(t, j) {
                    Err(m) => Err(m),
                    Ok((body, k)) => Ok((StmtV::Cast(target, body), k)),
                }
            } else {
                Err(at_end())
            },
        }
    } else if is_kw(t, i, "spawn"@) {
        match p_level(t, i + 1, 0) {
            Err(m) => Err(m),
            Ok((e, j)) => if !(e is Call) {
                Err("spawn expects a function call"@)
            } else {
                match p_expect(t, j, Punct::Semi) {
                    Err(m) => Err(m),
                    Ok(k) => Ok((StmtV::Spawn(e), k)),
                }
            },
        }
    } else {
        p_simple(t, i)
    }
}

/// `if expr block`, and an `else` with a block or another `if`.
pub open spec fn p_if(t: Seq<TokV>, i: int) -> Result<(StmtV, int), Seq<char>>
    decreases rem(t, i), 19int,
{
    match p_eat(t, i, "if"@) {
        Err(m) => Err(m),
        Ok(a) => match p_head_block(t, a) {
            Err(m) => Err(m),
            Ok(((c, yes), j)) => if !is_kw(t, j, "else"@) {
                Ok((StmtV::If(c, yes, None), j))
            } else if !(i < j) {
                Err(at_end())
            } else if is_kw(t, j + 1, "if"@) {
                match p_if(t, j + 1) {
                    Err(m) => Err(m),
                    Ok((s, k)) => Ok((StmtV::If(c, yes, Some(seq![s])), k)),
                }
            } else {
                match p_block(t, j + 1) {
                    Err(m) => Err(m),
                    Ok((no, k)) => Ok((StmtV::If(c, yes, Some(no)), k)),
                }
            },
        },
    }
}

/// `match expr { arm* }`.
pub open spec fn p_match(t: Seq<TokV>, i: int) -> Result<(StmtV, int), Seq<char>>
    decreases rem(t, i), 19int,
{
    match p_eat(t, i, "match"@) {
        Err(m) => Err(m),
        Ok(a) => match p_level(t, a, 0) {
            Err(m) => Err(m),
            Ok((subject, b)) => match p_expect(t, b, Punct::LBrace) {
                Err(m) => Err(m),
                Ok(c) => if 0 <= i < c <= t.len() {
                    match p_arms(t, c, false) {
                        Err(m) => Err(m),
                        Ok((arms, d)) => match p_expect(t, d, Punct::RBrace) {
                            Err(m) => Err(m),
                            Ok(e) => Ok((StmtV::Match(subject, arms), e)),
                        },
                    }
                } else {
                    Err(at_end())
                },
            },
        },
    }
}

/// `=> block`.
pub open spec fn p_arrow_block(t: Seq<TokV>, i: int) -> Result<(Seq<StmtV>, int), Seq<char>>
    decreases rem(t, i), 23int,
{
    match p_expect(t, i, Punct::FatArrow) {
        Err(m) => Err(m),
        Ok(j) => p_block(t, j),
    }
}

/// The destructured fields of an arm, if it has any.
pub open spec fn p_arm_fields(t: Seq<TokV>, i: int) -> Result<(Seq<Seq<char>>, int), Seq<char>> {
    if is_p(t, i, Punct::LBrace) {
        match p_names(t, i + 1, Punct::RBrace) {
            Err(m) => Err(m),
            Ok((fs, j)) => match p_expect(t, j, Punct::RBrace) {
                Err(m) => Err(m),
                Ok(k) => Ok((fs, k)),
            },
        }
    } else {
        Ok((Seq::empty(), i))
    }
}

/// An arm: an `else`, or a tag with its fields.
pub open spec fn p_arm(t: Seq<TokV>, i: int) -> Result<(MatchArmV, int), Seq<char>>
    decreases rem(t, i), 24int,
{
    if is_kw(t, i, "else"@) {
        match p_arrow_block(t, i + 1) {
            Err(m) => Err(m),
            Ok((body, j)) => Ok((MatchArmV { tag: None, fields: Seq::empty(), body }, j)),
        }
    } else {
        match p_ident(t, i) {
            Err(m) => Err(m),
            Ok((tag, a)) => match p_arm_fields(t, a) {
                Err(m) => Err(m),
                Ok((fields, b)) => if 0 <= i < b <= t.len() {
                    match p_arrow_block(t, b) {
                        Err(m) => Err(m),
                        Ok((body, j)) => Ok((MatchArmV { tag: Some(tag), fields, body }, j)),
                    }
                } else {
                    Err(at_end())
                },
            },
        }
    }
}

/// The arms up to `}`; nothing may follow an `else` arm.
pub open spec fn p_arms(t: Seq<TokV>, i: int, saw_else: bool) -> Result<
    (Seq<MatchArmV>, int),
    Seq<char>,
>
    decreases rem(t, i), 25int,
{
    if is_p(t, i, Punct::RBrace) {
        Ok((Seq::empty(), i))
    } else if saw_else {
        Err("match: `else` must be the last arm"@)
    } else {
        match p_arm(t, i) {
            Err(m) => Err(m),
            Ok((arm, j)) => if 0 <= i < j <= t.len() {
                match p_arms(t, j, arm.tag is None) {
                    Err(m) => Err(m),
                    Ok((arms, k)) => Ok((seq![arm] + arms, k)),
                }
            } else {
                Err(at_end())
            },
        }
    }
}

/// One item: a `server let` or a function.
pub open spec fn p_item(t: Seq<TokV>, i: int) -> Result<(ItemV, int), Seq<char>> {
    if is_kw(t, i, "server"@) {
        match p_eat(t, i + 1, "let"@) {
            Err(m) => Err(m),
            Ok(j) => match p_binding(t, j) {
                Err(m) => Err(m),
                Ok(((name, e), k)) => Ok((ItemV::ServerLet(name, e), k)),
            },
        }
    } else if is_kw(t, i, "fn"@) {
        match p_ident(t, i + 1) {
            Err(m) => Err(m),
            Ok((name, a)) => match p_params(t, a) {
                Err(m) => Err(m),
                Ok((ps, b)) => match p_block(t, b) {
                    Err(m) => Err(m),
                    Ok((body, c)) => Ok((ItemV::Fn(name, ps, body), c)),
                },
            },
        }
    } else {
        Err("expected item, got "@ + peek_text(t, i))
    }
}

/// All items from `i` on.
pub open spec fn p_items(t: Seq<TokV>, i: int) -> Result<Seq<ItemV>, Seq<char>>
    decreases rem(t, i),
{
    if !(0 <= i < t.len()) {
        Ok(Seq::empty())
    } else {
        match p_item(t, i) {
            Err(m) => Err(m),
            Ok((item, j)) => if 0 <= i < j <= t.len() {
                match p_items(t, j) {
                    Err(m) => Err(m),
                    Ok(items) => Ok(seq![item] + items),
                }
            } else {
                Err(at_end())
            },
        }
    }
}

} // verus!
