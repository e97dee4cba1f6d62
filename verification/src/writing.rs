//! Expressions written down as tokens, with brackets where the order of the
//! operators demands them and nowhere else, and what reading them gives.

use crate::ast::{BinaryOp, ExprV, StmtV};
use crate::grammar::{
    is_p, op_at, p_binding, p_block, p_expect, p_expr_semi, p_fields, p_head_block, p_if, p_level, p_list,
    p_postfix, p_primary, p_rest, p_stmt, p_unary, skip_comma,
};
use crate::ir::{BinOp, UnOp};
use crate::lexer::{Punct, TokV};
use vstd::prelude::*;
use vstd::string::*;

verus! {

/// How tightly an operator binds: `||`, then `&&`, then comparisons, then `..`,
/// then `+` and `-`, then `*`, `/` and `%`.
pub open spec fn tightness(op: BinaryOp) -> int {
    match op {
        BinaryOp::Or => 0,
        BinaryOp::And => 1,
        BinaryOp::Plain(BinOp::Eq) => 2,
        BinaryOp::Plain(BinOp::Ne) => 2,
        BinaryOp::Plain(BinOp::Lt) => 2,
        BinaryOp::Plain(BinOp::Le) => 2,
        BinaryOp::Plain(BinOp::Gt) => 2,
        BinaryOp::Plain(BinOp::Ge) => 2,
        BinaryOp::Plain(BinOp::Concat) => 3,
        BinaryOp::Plain(BinOp::Add) => 4,
        BinaryOp::Plain(BinOp::Sub) => 4,
        BinaryOp::Plain(BinOp::Mul) => 5,
        BinaryOp::Plain(BinOp::Div) => 5,
        BinaryOp::Plain(BinOp::Mod) => 5,
    }
}

/// The sign of an operator.
pub open spec fn sign_of(op: BinaryOp) -> Punct {
    match op {
        BinaryOp::Or => Punct::OrOr,
        BinaryOp::And => Punct::AndAnd,
        BinaryOp::Plain(BinOp::Eq) => Punct::Eq,
        BinaryOp::Plain(BinOp::Ne) => Punct::Ne,
        BinaryOp::Plain(BinOp::Lt) => Punct::Lt,
        BinaryOp::Plain(BinOp::Le) => Punct::Le,
        BinaryOp::Plain(BinOp::Gt) => Punct::Gt,
        BinaryOp::Plain(BinOp::Ge) => Punct::Ge,
        BinaryOp::Plain(BinOp::Concat) => Punct::DotDot,
        BinaryOp::Plain(BinOp::Add) => Punct::Plus,
        BinaryOp::Plain(BinOp::Sub) => Punct::Minus,
        BinaryOp::Plain(BinOp::Mul) => Punct::Star,
        BinaryOp::Plain(BinOp::Div) => Punct::Slash,
        BinaryOp::Plain(BinOp::Mod) => Punct::Percent,
    }
}

/// How tight what stands to the left of an operator must be: comparisons do not
/// follow each other, and `..` groups to the right.
pub open spec fn left_of(op: BinaryOp) -> int {
    if tightness(op) == 2 || tightness(op) == 3 {
        tightness(op) + 1
    } else {
        tightness(op)
    }
}

/// How tight what stands to the right of an operator must be.
pub open spec fn right_of(op: BinaryOp) -> int {
    if tightness(op) == 3 {
        3
    } else {
        tightness(op) + 1
    }
}

/// How tight an expression is: an operator as it binds, then `!` and `-`, then
/// all that holds together by itself.
pub open spec fn hold_of(e: ExprV) -> int {
    match e {
        ExprV::Binary(op, _, _) => tightness(op),
        ExprV::Unary(_, _) => 6,
        _ => 7,
    }
}

/// The word is a name, and no literal or keyword of expressions.
pub open spec fn is_name(s: Seq<char>) -> bool {
    s != "true"@ && s != "false"@ && s != "nil"@ && s != "fn"@
}

/// The expression is made of literals, names, operators, calls, fields, indices,
/// lists and tables.
pub open spec fn plain(e: ExprV) -> bool
    decreases e,
{
    match e {
        ExprV::Num(_) => true,
        ExprV::Str(_) => true,
        ExprV::Bool(_) => true,
        ExprV::Nil => true,
        ExprV::Ident(s) => is_name(s),
        ExprV::Field(x, _) => plain(*x),
        ExprV::Index(x, ix) => plain(*x) && plain(*ix),
        ExprV::Call(x, args) => plain(*x) && forall|i: int|
            0 <= i < args.len() ==> plain(#[trigger] args[i]),
        ExprV::Unary(_, x) => plain(*x),
        ExprV::Binary(_, x, y) => plain(*x) && plain(*y),
        ExprV::Table(fs) => forall|i: int| 0 <= i < fs.len() ==> plain((#[trigger] fs[i]).1),
        ExprV::Array(xs) => forall|i: int| 0 <= i < xs.len() ==> plain(#[trigger] xs[i]),
        ExprV::Fn(_, _) => false,
    }
}

pub open spec fn one(p: Punct) -> Seq<TokV> {
    seq![TokV::Punct(p)]
}

pub open spec fn word(s: Seq<char>) -> Seq<TokV> {
    seq![TokV::Ident(s)]
}

/// The tokens of an expression without brackets around it.
pub open spec fn spelled(e: ExprV) -> Seq<TokV>
    decreases e, 0int, 0int,
{
    match e {
        ExprV::Num(s) => seq![TokV::Num(s)],
        ExprV::Str(s) => seq![TokV::Str(s)],
        ExprV::Bool(b) => word(
            if b {
                "true"@
            } else {
                "false"@
            },
        ),
        ExprV::Nil => word("nil"@),
        ExprV::Ident(s) => word(s),
        ExprV::Field(x, name) => written(*x, 7) + (one(Punct::Dot) + word(name)),
        ExprV::Index(x, ix) => written(*x, 7) + (one(Punct::LBracket) + (written(*ix, 0) + one(
            Punct::RBracket,
        ))),
        ExprV::Call(x, args) => written(*x, 7) + (one(Punct::LParen) + (written_list(args, 0) + one(
            Punct::RParen,
        ))),
        ExprV::Unary(op, x) => one(
            match op {
                UnOp::Not => Punct::Bang,
                UnOp::Neg => Punct::Minus,
            },
        ) + written(*x, 6),
        ExprV::Binary(op, x, y) => written(*x, left_of(op)) + (one(sign_of(op)) + written(
            *y,
            right_of(op),
        )),
        ExprV::Table(fs) => one(Punct::LBrace) + (written_fields(fs, 0) + one(Punct::RBrace)),
        ExprV::Array(xs) => one(Punct::LBracket) + (written_list(xs, 0) + one(Punct::RBracket)),
        ExprV::Fn(_, _) => Seq::empty(),
    }
}

/// The tokens of an expression where one at least as tight as `hold` is wanted:
/// in brackets if it is looser.
pub open spec fn written(e: ExprV, hold: int) -> Seq<TokV>
    decreases e, 1int, 0int,
{
    if hold_of(e) < hold {
        one(Punct::LParen) + (spelled(e) + one(Punct::RParen))
    } else {
        spelled(e)
    }
}

/// The tokens of the expressions from `k` on, with commas between them.
pub open spec fn written_list(es: Seq<ExprV>, k: int) -> Seq<TokV>
    decreases es, 2int, es.len() - k,
{
    if k < 0 || k >= es.len() {
        Seq::empty()
    } else {
        written(es[k], 0) + ((if k + 1 < es.len() {
            one(Punct::Comma)
        } else {
            Seq::empty()
        }) + written_list(es, k + 1))
    }
}

/// The tokens of the fields from `k` on, with commas between them.
pub open spec fn written_fields(fs: Seq<(Seq<char>, ExprV)>, k: int) -> Seq<TokV>
    decreases fs, 2int, fs.len() - k,
{
    if k < 0 || k >= fs.len() {
        Seq::empty()
    } else {
        word(fs[k].0) + (one(Punct::Assign) + (written(fs[k].1, 0) + ((if k + 1 < fs.len() {
            one(Punct::Comma)
        } else {
            Seq::empty()
        }) + written_fields(fs, k + 1))))
    }
}

/// The tokens `w` stand at `i`.
pub open spec fn stands(t: Seq<TokV>, i: int, w: Seq<TokV>) -> bool {
    &&& 0 <= i
    &&& i + w.len() <= t.len()
    &&& t.subrange(i, i + w.len()) == w
}

/// What stands at `i` does not go on with an expression that is as tight as
/// `hold`.
pub open spec fn stops(t: Seq<TokV>, i: int, hold: int) -> bool {
    &&& !is_p(t, i, Punct::LParen)
    &&& !is_p(t, i, Punct::LBracket)
    &&& !is_p(t, i, Punct::Dot)
    &&& forall|op: BinaryOp| tightness(op) >= hold ==> !is_p(t, i, #[trigger] sign_of(op))
}

proof fn lemma_stands_concat(t: Seq<TokV>, i: int, a: Seq<TokV>, b: Seq<TokV>)
    requires
        stands(t, i, a + b),
    ensures
        stands(t, i, a),
        stands(t, i + a.len(), b),
{
    let w = a + b;
    assert forall|k: int| 0 <= k < w.len() implies t[i + k] == w[k] by {
        assert(t.subrange(i, i + w.len())[k] == t[i + k]);
    }
    assert(t.subrange(i, i + a.len()) =~= a) by {
        assert forall|k: int| 0 <= k < a.len() implies t[i + k] == a[k] by {
            assert(w[k] == a[k]);
        }
    }
    let j = i + a.len();
    assert(t.subrange(j, j + b.len()) =~= b) by {
        assert forall|k: int| 0 <= k < b.len() implies t[j + k] == b[k] by {
            assert(w[a.len() + k] == b[k]);
        }
    }
}

proof fn lemma_stands_one(t: Seq<TokV>, i: int, x: TokV)
    requires
        stands(t, i, seq![x]),
    ensures
        0 <= i < t.len(),
        t[i] == x,
{
    assert(t.subrange(i, i + 1)[0] == t[i]);
}

proof fn lemma_op_at(t: Seq<TokV>, i: int, op: BinaryOp)
    requires
        is_p(t, i, sign_of(op)),
    ensures
        forall|l: int| #[trigger] op_at(t, i, l) == (if l == tightness(op) {
            Some(op)
        } else {
            None::<BinaryOp>
        }),
        forall|h: int| h > tightness(op) ==> #[trigger] stops(t, i, h),
{
}

/// A token that is the sign of no operator as tight as `l` is no operator there.
proof fn lemma_no_op(t: Seq<TokV>, i: int, hold: int, l: int)
    requires
        stops(t, i, hold),
        hold <= l,
    ensures
        op_at(t, i, l) is None,
{
    if op_at(t, i, l) is Some {
        let op = op_at(t, i, l)->Some_0;
        assert(is_p(t, i, sign_of(op)));
        assert(tightness(op) == l);
    }
}

/// What is written begins with no closing bracket.
proof fn lemma_begins(e: ExprV, hold: int)
    requires
        plain(e),
    ensures
        written(e, hold).len() > 0,
        written(e, hold)[0] != TokV::Punct(Punct::RParen),
        written(e, hold)[0] != TokV::Punct(Punct::RBracket),
        written(e, hold)[0] != TokV::Punct(Punct::RBrace),
    decreases e,
{
    match e {
        ExprV::Field(x, _) => lemma_begins(*x, 7),
        ExprV::Index(x, _) => lemma_begins(*x, 7),
        ExprV::Call(x, _) => lemma_begins(*x, 7),
        ExprV::Binary(op, x, _) => lemma_begins(*x, left_of(op)),
        _ => {},
    }
}

/// How far it is from `hold` to the operator of the expression; further where
/// there are brackets in between.
spec fn steps_to(e: ExprV, hold: int) -> int {
    if hold_of(e) < hold {
        20 - hold
    } else {
        8 - hold
    }
}

/// What is written as tight as `hold` is read as the expression, at `hold` or
/// looser.
proof fn lemma_reads(t: Seq<TokV>, i: int, e: ExprV, hold: int)
    requires
        plain(e),
        0 <= hold <= 6,
        stands(t, i, written(e, hold)),
        stops(t, i + written(e, hold).len(), hold),
    ensures
        p_level(t, i, hold) == Ok::<(ExprV, int), Seq<char>>((e, i + written(e, hold).len())),
    decreases e, steps_to(e, hold), 1int,
{
    let n = i + written(e, hold).len();
    lemma_begins(e, hold);
    if hold == 6 {
        match e {
            ExprV::Unary(op, x) => {
                let sign = one(
                    match op {
                        UnOp::Not => Punct::Bang,
                        UnOp::Neg => Punct::Minus,
                    },
                );
                lemma_stands_concat(t, i, sign, written(*x, 6));
                lemma_stands_one(t, i, sign[0]);
                lemma_reads(t, i + 1, *x, 6);
                assert(p_level(t, i + 1, 6) == p_unary(t, i + 1));
                assert(p_unary(t, i) == Ok::<(ExprV, int), Seq<char>>((e, n)));
            },
            _ => {
                assert(written(e, 6) == written(e, 7));
                lemma_holds(t, i, e);
                assert(p_postfix(t, n, e) == Ok::<(ExprV, int), Seq<char>>((e, n)));
            },
        }
        assert(p_level(t, i, 6) == p_unary(t, i));
    } else if hold_of(e) == hold {
        if hold == 2 || hold == 3 {
            lemma_two(t, i, e);
        } else {
            assert(stops(t, n, hold + 1));
            lemma_chain(t, i, e, hold);
            lemma_no_op(t, n, hold, hold);
            assert(p_rest(t, n, hold, e) == Ok::<(ExprV, int), Seq<char>>((e, n)));
        }
    } else {
        assert(written(e, hold + 1) == written(e, hold));
        assert(stops(t, n, hold + 1));
        lemma_reads(t, i, e, hold + 1);
        lemma_no_op(t, n, hold, hold);
        assert(p_level(t, i, hold) == p_rest(t, n, hold, e));
        assert(p_rest(t, n, hold, e) == Ok::<(ExprV, int), Seq<char>>((e, n)));
    }
}

/// A comparison, or a text put together with `..`.
proof fn lemma_two(t: Seq<TokV>, i: int, e: ExprV)
    requires
        plain(e),
        hold_of(e) == 2 || hold_of(e) == 3,
        stands(t, i, written(e, hold_of(e))),
        stops(t, i + written(e, hold_of(e)).len(), hold_of(e)),
    ensures
        p_level(t, i, hold_of(e)) == Ok::<(ExprV, int), Seq<char>>(
            (e, i + written(e, hold_of(e)).len()),
        ),
    decreases e, 0int, 0int,
{
    if let ExprV::Binary(op, x, y) = e {
        let h = tightness(op);
        let (a, b) = (written(*x, left_of(op)), written(*y, right_of(op)));
        let s = one(sign_of(op));
        lemma_stands_concat(t, i, a, s + b);
        let j = i + a.len();
        lemma_stands_concat(t, j, s, b);
        lemma_stands_one(t, j, s[0]);
        lemma_op_at(t, j, op);
        lemma_begins(*x, left_of(op));
        assert(stops(t, j, left_of(op)));
        lemma_reads(t, i, *x, left_of(op));
        assert(stops(t, j + 1 + b.len(), right_of(op)));
        lemma_reads(t, j + 1, *y, right_of(op));
        assert(op_at(t, j, h) == Some(op));
        assert(p_level(t, i, h) == p_rest(t, j, h, *x));
        assert(p_rest(t, j, h, *x) == Ok::<(ExprV, int), Seq<char>>((e, j + 1 + b.len())));
    }
}

/// Operators that group to the left: what is written is read, and then what
/// follows at the same tightness.
proof fn lemma_chain(t: Seq<TokV>, i: int, e: ExprV, hold: int)
    requires
        plain(e),
        hold == 0 || hold == 1 || hold == 4 || hold == 5,
        stands(t, i, written(e, hold)),
        stops(t, i + written(e, hold).len(), hold + 1),
    ensures
        p_level(t, i, hold) == p_rest(t, i + written(e, hold).len(), hold, e),
    decreases e, steps_to(e, hold), 0int,
{
    let n = i + written(e, hold).len();
    lemma_begins(e, hold);
    if hold_of(e) == hold {
        if let ExprV::Binary(op, x, y) = e {
            let (a, b) = (written(*x, hold), written(*y, hold + 1));
            let s = one(sign_of(op));
            lemma_stands_concat(t, i, a, s + b);
            let j = i + a.len();
            lemma_stands_concat(t, j, s, b);
            lemma_stands_one(t, j, s[0]);
            lemma_op_at(t, j, op);
            assert(stops(t, j, hold + 1));
            lemma_begins(*x, hold);
            lemma_begins(*y, hold + 1);
            lemma_chain(t, i, *x, hold);
            lemma_reads(t, j + 1, *y, hold + 1);
            assert(op_at(t, j, hold) == Some(op));
            assert(n == j + 1 + b.len());
        }
    } else {
        assert(written(e, hold + 1) == written(e, hold));
        lemma_reads(t, i, e, hold + 1);
    }
}

/// What holds together by itself, or is in brackets: it is read, and then what
/// follows it.
proof fn lemma_holds(t: Seq<TokV>, i: int, e: ExprV)
    requires
        plain(e),
        stands(t, i, written(e, 7)),
    ensures
        p_unary(t, i) == p_postfix(t, i + written(e, 7).len(), e),
    decreases e, (if hold_of(e) < 7 { 12int } else { 0int }), 0int,
{
    let w = written(e, 7);
    let n = i + w.len();
    lemma_begins(e, 7);
    if hold_of(e) < 7 {
        let inner = spelled(e);
        lemma_stands_concat(t, i, one(Punct::LParen), inner + one(Punct::RParen));
        lemma_stands_concat(t, i + 1, inner, one(Punct::RParen));
        lemma_stands_one(t, i, TokV::Punct(Punct::LParen));
        lemma_stands_one(t, i + 1 + inner.len(), TokV::Punct(Punct::RParen));
        assert(written(e, 0) == inner);
        assert(stops(t, i + 1 + inner.len(), 0));
        lemma_reads(t, i + 1, e, 0);
        assert(p_expect(t, i + 1 + inner.len(), Punct::RParen) == Ok::<int, Seq<char>>(n));
        assert(p_primary(t, i) == Ok::<(ExprV, int), Seq<char>>((e, n)));
    } else {
        match e {
            ExprV::Num(s) => lemma_stands_one(t, i, TokV::Num(s)),
            ExprV::Str(s) => lemma_stands_one(t, i, TokV::Str(s)),
            ExprV::Bool(b) => {
                lemma_stands_one(
                    t,
                    i,
                    TokV::Ident(
                        if b {
                            "true"@
                        } else {
                            "false"@
                        },
                    ),
                );
                lemma_words();
            },
            ExprV::Nil => {
                lemma_stands_one(t, i, TokV::Ident("nil"@));
                lemma_words();
            },
            ExprV::Ident(s) => lemma_stands_one(t, i, TokV::Ident(s)),
            ExprV::Field(x, name) => {
                let a = written(*x, 7);
                lemma_stands_concat(t, i, a, one(Punct::Dot) + word(name));
                let j = i + a.len();
                lemma_stands_concat(t, j, one(Punct::Dot), word(name));
                lemma_stands_one(t, j, TokV::Punct(Punct::Dot));
                lemma_stands_one(t, j + 1, TokV::Ident(name));
                lemma_holds(t, i, *x);
            },
            ExprV::Index(x, ix) => {
                let (a, b) = (written(*x, 7), written(*ix, 0));
                let j = i + a.len();
                lemma_stands_concat(t, i, a, one(Punct::LBracket) + (b + one(Punct::RBracket)));
                lemma_stands_concat(t, j, one(Punct::LBracket), b + one(Punct::RBracket));
                lemma_stands_concat(t, j + 1, b, one(Punct::RBracket));
                lemma_stands_one(t, j, TokV::Punct(Punct::LBracket));
                lemma_stands_one(t, j + 1 + b.len(), TokV::Punct(Punct::RBracket));
                lemma_holds(t, i, *x);
                assert(stops(t, j + 1 + b.len(), 0));
                lemma_reads(t, j + 1, *ix, 0);
            },
            ExprV::Call(x, args) => {
                let (a, b) = (written(*x, 7), written_list(args, 0));
                let j = i + a.len();
                lemma_stands_concat(t, i, a, one(Punct::LParen) + (b + one(Punct::RParen)));
                lemma_stands_concat(t, j, one(Punct::LParen), b + one(Punct::RParen));
                lemma_stands_concat(t, j + 1, b, one(Punct::RParen));
                lemma_stands_one(t, j, TokV::Punct(Punct::LParen));
                lemma_stands_one(t, j + 1 + b.len(), TokV::Punct(Punct::RParen));
                lemma_holds(t, i, *x);
                lemma_lists(t, j + 1, args, 0, Punct::RParen);
                assert(args.skip(0) =~= args);
            },
            ExprV::Array(xs) => {
                let b = written_list(xs, 0);
                lemma_stands_concat(t, i, one(Punct::LBracket), b + one(Punct::RBracket));
                lemma_stands_concat(t, i + 1, b, one(Punct::RBracket));
                lemma_stands_one(t, i, TokV::Punct(Punct::LBracket));
                lemma_stands_one(t, i + 1 + b.len(), TokV::Punct(Punct::RBracket));
                lemma_lists(t, i + 1, xs, 0, Punct::RBracket);
                assert(xs.skip(0) =~= xs);
                assert(p_primary(t, i) == Ok::<(ExprV, int), Seq<char>>((e, n)));
            },
            ExprV::Table(fs) => {
                let b = written_fields(fs, 0);
                lemma_stands_concat(t, i, one(Punct::LBrace), b + one(Punct::RBrace));
                lemma_stands_concat(t, i + 1, b, one(Punct::RBrace));
                lemma_stands_one(t, i, TokV::Punct(Punct::LBrace));
                lemma_stands_one(t, i + 1 + b.len(), TokV::Punct(Punct::RBrace));
                lemma_tables(t, i + 1, fs, 0);
                assert(fs.skip(0) =~= fs);
                assert(p_primary(t, i) == Ok::<(ExprV, int), Seq<char>>((e, n)));
            },
            _ => {},
        }
    }
}

proof fn lemma_words()
    ensures
        "true"@ != "false"@,
        "true"@ != "nil"@,
        "false"@ != "nil"@,
        "true"@ != "fn"@,
        "false"@ != "fn"@,
        "nil"@ != "fn"@,
{
    reveal_strlit("true");
    reveal_strlit("false");
    reveal_strlit("nil");
    reveal_strlit("fn");
    assert("true"@.len() == 4 && "false"@.len() == 5 && "nil"@.len() == 3 && "fn"@.len() == 2);
}

proof fn lemma_lists(t: Seq<TokV>, i: int, es: Seq<ExprV>, k: int, close: Punct)
    requires
        0 <= k <= es.len(),
        forall|j: int| 0 <= j < es.len() ==> plain(#[trigger] es[j]),
        close == Punct::RParen || close == Punct::RBracket,
        stands(t, i, written_list(es, k)),
        is_p(t, i + written_list(es, k).len(), close),
    ensures
        p_list(t, i, close) == Ok::<(Seq<ExprV>, int), Seq<char>>(
            (es.skip(k), i + written_list(es, k).len()),
        ),
    decreases es, 0int, es.len() - k,
{
    if k == es.len() {
        assert(es.skip(k) =~= Seq::<ExprV>::empty());
    } else {
        let e = es[k];
        let w = written(e, 0);
        let comma = if k + 1 < es.len() {
            one(Punct::Comma)
        } else {
            Seq::empty()
        };
        let rest = written_list(es, k + 1);
        assert(plain(e));
        lemma_begins(e, 0);
        lemma_stands_concat(t, i, w, comma + rest);
        let j = i + w.len();
        lemma_stands_concat(t, j, comma, rest);
        assert(t[i] == w[0]) by {
            assert(t.subrange(i, i + w.len())[0] == t[i]);
        }
        if k + 1 < es.len() {
            lemma_stands_one(t, j, TokV::Punct(Punct::Comma));
        } else {
            assert(rest =~= Seq::<TokV>::empty());
            assert(is_p(t, j, close));
        }
        assert(stops(t, j, 0));
        lemma_reads(t, i, e, 0);
        assert(skip_comma(t, j) == j + comma.len());
        lemma_lists(t, j + comma.len(), es, k + 1, close);
        assert(seq![e] + es.skip(k + 1) =~= es.skip(k));
    }
}

proof fn lemma_tables(t: Seq<TokV>, i: int, fs: Seq<(Seq<char>, ExprV)>, k: int)
    requires
        0 <= k <= fs.len(),
        forall|j: int| 0 <= j < fs.len() ==> plain((#[trigger] fs[j]).1),
        stands(t, i, written_fields(fs, k)),
        is_p(t, i + written_fields(fs, k).len(), Punct::RBrace),
    ensures
        p_fields(t, i) == Ok::<(Seq<(Seq<char>, ExprV)>, int), Seq<char>>(
            (fs.skip(k), i + written_fields(fs, k).len()),
        ),
    decreases fs, 0int, fs.len() - k,
{
    if k == fs.len() {
        assert(fs.skip(k) =~= Seq::<(Seq<char>, ExprV)>::empty());
    } else {
        let (name, e) = fs[k];
        let w = written(e, 0);
        let comma = if k + 1 < fs.len() {
            one(Punct::Comma)
        } else {
            Seq::empty()
        };
        let rest = written_fields(fs, k + 1);
        assert(plain(fs[k].1));
        lemma_begins(e, 0);
        lemma_stands_concat(t, i, word(name), one(Punct::Assign) + (w + (comma + rest)));
        lemma_stands_one(t, i, TokV::Ident(name));
        lemma_stands_concat(t, i + 1, one(Punct::Assign), w + (comma + rest));
        lemma_stands_one(t, i + 1, TokV::Punct(Punct::Assign));
        lemma_stands_concat(t, i + 2, w, comma + rest);
        let j = i + 2 + w.len();
        lemma_stands_concat(t, j, comma, rest);
        if k + 1 < fs.len() {
            lemma_stands_one(t, j, TokV::Punct(Punct::Comma));
        } else {
            assert(rest =~= Seq::<TokV>::empty());
            assert(is_p(t, j, Punct::RBrace));
        }
        assert(stops(t, j, 0));
        lemma_reads(t, i + 2, e, 0);
        assert(skip_comma(t, j) == j + comma.len());
        lemma_tables(t, j + comma.len(), fs, k + 1);
        assert(seq![(name, e)] + fs.skip(k + 1) =~= fs.skip(k));
    }
}

/// An expression that is written with only the brackets that the order of the
/// operators demands is read back as it was, wherever it stands, up to the first
/// token that cannot go on with it.
pub proof fn law_expressions_read_back(t: Seq<TokV>, i: int, e: ExprV)
    requires
        plain(e),
        stands(t, i, written(e, 0)),
        stops(t, i + written(e, 0).len(), 0),
    ensures
        p_level(t, i, 0) == Ok::<(ExprV, int), Seq<char>>((e, i + written(e, 0).len())),
{
    lemma_reads(t, i, e, 0);
}

/// `a`, an operator, `b`, another operator and `c`, where the three hold
/// together by themselves.
pub open spec fn three(a: ExprV, op: BinaryOp, b: ExprV, op2: BinaryOp, c: ExprV) -> Seq<TokV> {
    written(a, 6) + (one(sign_of(op)) + (written(b, 6) + (one(sign_of(op2)) + written(c, 6))))
}

proof fn lemma_tight(e: ExprV, hold: int)
    requires
        hold_of(e) >= 6,
        hold <= 6,
    ensures
        written(e, hold) == written(e, 6),
{
}

/// Of two operators the tighter one takes the operand between them, whichever
/// comes first.
pub proof fn law_tighter_operators_bind_first(
    a: ExprV,
    loose: BinaryOp,
    b: ExprV,
    tight: BinaryOp,
    c: ExprV,
)
    requires
        plain(a) && plain(b) && plain(c),
        hold_of(a) >= 6 && hold_of(b) >= 6 && hold_of(c) >= 6,
        tightness(loose) < tightness(tight),
    ensures
        p_level(three(a, loose, b, tight, c), 0, 0) == Ok::<(ExprV, int), Seq<char>>(
            (
                ExprV::Binary(
                    loose,
                    Box::new(a),
                    Box::new(ExprV::Binary(tight, Box::new(b), Box::new(c))),
                ),
                three(a, loose, b, tight, c).len() as int,
            ),
        ),
        p_level(three(a, tight, b, loose, c), 0, 0) == Ok::<(ExprV, int), Seq<char>>(
            (
                ExprV::Binary(
                    loose,
                    Box::new(ExprV::Binary(tight, Box::new(a), Box::new(b))),
                    Box::new(c),
                ),
                three(a, tight, b, loose, c).len() as int,
            ),
        ),
{
    let bc = ExprV::Binary(tight, Box::new(b), Box::new(c));
    let e = ExprV::Binary(loose, Box::new(a), Box::new(bc));
    let t = three(a, loose, b, tight, c);
    reveal_with_fuel(plain, 4);
    reveal_with_fuel(spelled, 4);
    reveal_with_fuel(written, 4);
    lemma_tight(a, left_of(loose));
    lemma_tight(b, left_of(tight));
    lemma_tight(c, right_of(tight));
    lemma_tight(a, left_of(tight));
    lemma_tight(b, right_of(tight));
    lemma_tight(c, right_of(loose));
    assert(written(bc, right_of(loose)) == written(b, 6) + (one(sign_of(tight)) + written(c, 6)));
    assert(written(e, 0) =~= t);
    assert(t.subrange(0, t.len() as int) =~= t);
    law_expressions_read_back(t, 0, e);
    let ab = ExprV::Binary(tight, Box::new(a), Box::new(b));
    let g = ExprV::Binary(loose, Box::new(ab), Box::new(c));
    let u = three(a, tight, b, loose, c);
    assert(written(ab, left_of(loose)) == written(a, 6) + (one(sign_of(tight)) + written(b, 6)));
    assert(written(g, 0) =~= u);
    assert(u.subrange(0, u.len() as int) =~= u);
    law_expressions_read_back(u, 0, g);
}

/// Two operators of the same tightness group to the left, but for `..`, which
/// groups to the right, and for comparisons, which do not follow each other.
pub proof fn law_equal_operators_group(
    a: ExprV,
    op: BinaryOp,
    b: ExprV,
    op2: BinaryOp,
    c: ExprV,
)
    requires
        plain(a) && plain(b) && plain(c),
        hold_of(a) >= 6 && hold_of(b) >= 6 && hold_of(c) >= 6,
        tightness(op) == tightness(op2),
        tightness(op) != 2,
    ensures
        p_level(three(a, op, b, op2, c), 0, 0) == Ok::<(ExprV, int), Seq<char>>(
            (
                if op == BinaryOp::Plain(BinOp::Concat) {
                    ExprV::Binary(
                        op,
                        Box::new(a),
                        Box::new(ExprV::Binary(op2, Box::new(b), Box::new(c))),
                    )
                } else {
                    ExprV::Binary(
                        op2,
                        Box::new(ExprV::Binary(op, Box::new(a), Box::new(b))),
                        Box::new(c),
                    )
                },
                three(a, op, b, op2, c).len() as int,
            ),
        ),
{
    let t = three(a, op, b, op2, c);
    reveal_with_fuel(plain, 4);
    reveal_with_fuel(spelled, 4);
    reveal_with_fuel(written, 4);
    lemma_tight(a, left_of(op));
    lemma_tight(b, left_of(op2));
    lemma_tight(b, right_of(op));
    lemma_tight(c, right_of(op2));
    assert(t.subrange(0, t.len() as int) =~= t);
    if op == BinaryOp::Plain(BinOp::Concat) {
        let bc = ExprV::Binary(op2, Box::new(b), Box::new(c));
        let e = ExprV::Binary(op, Box::new(a), Box::new(bc));
        assert(written(bc, right_of(op)) == written(b, 6) + (one(sign_of(op2)) + written(c, 6)));
        assert(written(e, 0) =~= t);
        law_expressions_read_back(t, 0, e);
    } else {
        let ab = ExprV::Binary(op, Box::new(a), Box::new(b));
        let g = ExprV::Binary(op2, Box::new(ab), Box::new(c));
        assert(written(ab, left_of(op2)) == written(a, 6) + (one(sign_of(op)) + written(b, 6)));
        assert(written(g, 0) =~= t);
        law_expressions_read_back(t, 0, g);
    }
}

/// The word stands at `i`.
pub open spec fn says(t: Seq<TokV>, i: int, w: Seq<char>) -> bool {
    0 <= i < t.len() && t[i] == TokV::Ident(w)
}

proof fn lemma_statement_words()
    ensures
        "let"@[0] == 'l' && "let"@.len() == 3,
        "return"@[0] == 'r' && "return"@.len() == 6,
        "if"@[0] == 'i' && "if"@.len() == 2,
        "match"@[0] == 'm' && "match"@.len() == 5,
        "for"@[0] == 'f' && "for"@.len() == 3,
        "while"@[0] == 'w' && "while"@.len() == 5,
        "cast"@[0] == 'c' && "cast"@.len() == 4,
        "spawn"@[0] == 's' && "spawn"@.len() == 5,
        "server"@[0] == 's' && "server"@.len() == 6,
        "browser"@[0] == 'b' && "browser"@.len() == 7,
        "else"@[0] == 'e' && "else"@.len() == 4,
{
    reveal_strlit("let");
    reveal_strlit("return");
    reveal_strlit("if");
    reveal_strlit("match");
    reveal_strlit("for");
    reveal_strlit("while");
    reveal_strlit("cast");
    reveal_strlit("spawn");
    reveal_strlit("server");
    reveal_strlit("browser");
    reveal_strlit("else");
}

/// `let`, a name, `=`, an expression and `;` bind the name to the expression.
pub proof fn law_bindings_read_back(t: Seq<TokV>, i: int, name: Seq<char>, e: ExprV)
    requires
        plain(e),
        stands(
            t,
            i,
            word("let"@) + (word(name) + (one(Punct::Assign) + (written(e, 0) + one(Punct::Semi)))),
        ),
    ensures
        p_stmt(t, i) == Ok::<(StmtV, int), Seq<char>>(
            (StmtV::Let(name, e), i + 4 + written(e, 0).len()),
        ),
{
    let w = written(e, 0);
    lemma_statement_words();
    lemma_stands_concat(t, i, word("let"@), word(name) + (one(Punct::Assign) + (w + one(Punct::Semi))));
    lemma_stands_one(t, i, TokV::Ident("let"@));
    lemma_stands_concat(t, i + 1, word(name), one(Punct::Assign) + (w + one(Punct::Semi)));
    lemma_stands_one(t, i + 1, TokV::Ident(name));
    lemma_stands_concat(t, i + 2, one(Punct::Assign), w + one(Punct::Semi));
    lemma_stands_one(t, i + 2, TokV::Punct(Punct::Assign));
    lemma_stands_concat(t, i + 3, w, one(Punct::Semi));
    let n = i + 3 + w.len();
    lemma_stands_one(t, n, TokV::Punct(Punct::Semi));
    assert(stops(t, n, 0));
    lemma_reads(t, i + 3, e, 0);
    assert(p_expr_semi(t, i + 3) == Ok::<(ExprV, int), Seq<char>>((e, n + 1)));
    assert(p_binding(t, i + 1) == Ok::<((Seq<char>, ExprV), int), Seq<char>>(((name, e), n + 1)));
}

/// `return`, an expression and `;` return the expression.
pub proof fn law_returns_read_back(t: Seq<TokV>, i: int, e: ExprV)
    requires
        plain(e),
        stands(t, i, word("return"@) + (written(e, 0) + one(Punct::Semi))),
    ensures
        p_stmt(t, i) == Ok::<(StmtV, int), Seq<char>>(
            (StmtV::Return(Some(e)), i + 2 + written(e, 0).len()),
        ),
{
    let w = written(e, 0);
    lemma_statement_words();
    lemma_stands_concat(t, i, word("return"@), w + one(Punct::Semi));
    lemma_stands_one(t, i, TokV::Ident("return"@));
    lemma_stands_concat(t, i + 1, w, one(Punct::Semi));
    let n = i + 1 + w.len();
    lemma_stands_one(t, n, TokV::Punct(Punct::Semi));
    assert(stops(t, n, 0));
    lemma_reads(t, i + 1, e, 0);
    lemma_begins(e, 0);
    lemma_no_semi(e, 0);
    assert(t[i + 1] == w[0]) by {
        assert(t.subrange(i + 1, i + 1 + w.len())[0] == t[i + 1]);
    }
    assert(p_expr_semi(t, i + 1) == Ok::<(ExprV, int), Seq<char>>((e, n + 1)));
}

/// What is written begins with no `;`.
proof fn lemma_no_semi(e: ExprV, hold: int)
    requires
        plain(e),
    ensures
        written(e, hold).len() > 0,
        written(e, hold)[0] != TokV::Punct(Punct::Semi),
    decreases e,
{
    match e {
        ExprV::Field(x, _) => lemma_no_semi(*x, 7),
        ExprV::Index(x, _) => lemma_no_semi(*x, 7),
        ExprV::Call(x, _) => lemma_no_semi(*x, 7),
        ExprV::Binary(op, x, _) => lemma_no_semi(*x, left_of(op)),
        _ => {},
    }
}

/// `if` and `while` take the expression behind them as the condition and the
/// block behind that as what depends on it; an `else` block is the other branch.
pub proof fn law_conditions_and_branches(
    t: Seq<TokV>,
    i: int,
    c: ExprV,
    yes: Seq<StmtV>,
    k: int,
    no: Seq<StmtV>,
    n: int,
)
    requires
        0 <= i < t.len(),
        plain(c),
        stands(t, i + 1, written(c, 0)),
        is_p(t, i + 1 + written(c, 0).len(), Punct::LBrace),
        p_block(t, i + 1 + written(c, 0).len()) == Ok::<(Seq<StmtV>, int), Seq<char>>((yes, k)),
        i < k,
    ensures
        says(t, i, "while"@) ==> p_stmt(t, i) == Ok::<(StmtV, int), Seq<char>>(
            (StmtV::While(c, yes), k),
        ),
        says(t, i, "if"@) && !says(t, k, "else"@) ==> p_stmt(t, i) == Ok::<
            (StmtV, int),
            Seq<char>,
        >((StmtV::If(c, yes, None), k)),
        says(t, i, "if"@) && says(t, k, "else"@) && !says(t, k + 1, "if"@) && p_block(t, k + 1)
            == Ok::<(Seq<StmtV>, int), Seq<char>>((no, n)) ==> p_stmt(t, i) == Ok::<
            (StmtV, int),
            Seq<char>,
        >((StmtV::If(c, yes, Some(no)), n)),
{
    lemma_statement_words();
    let j = i + 1 + written(c, 0).len();
    assert(stops(t, j, 0));
    lemma_reads(t, i + 1, c, 0);
    lemma_begins(c, 0);
    assert(p_head_block(t, i + 1) == Ok::<((ExprV, Seq<StmtV>), int), Seq<char>>(((c, yes), k)));
    if says(t, i, "if"@) {
        assert(p_stmt(t, i) == p_if(t, i));
    }
}

} // verus!
