//! The tokens of `.hop` source.

use crate::text::{
    chars_of, debug_char, debug_of_char, debug_of_text, debug_text, is_alpha, is_alpha_exec,
    is_digit, is_digit_exec, slice_of,
};
use vstd::prelude::*;
use vstd::string::*;

verus! {

/// Punctuation and operators.
#[derive(Clone, Copy, Debug, PartialEq, Eq, Structural)]
pub enum Punct {
    LParen,
    RParen,
    LBrace,
    RBrace,
    LBracket,
    RBracket,
    Comma,
    Semi,
    Bang,
    Dot,
    DotDot,
    Assign,
    FatArrow,
    Eq,
    Ne,
    Lt,
    Gt,
    Le,
    Ge,
    Plus,
    Minus,
    Star,
    Slash,
    Percent,
    AndAnd,
    OrOr,
}

/// A token.
#[derive(Clone, Debug)]
pub enum Tok {
    Ident(String),
    Num(String),
    Str(String),
    /// `:name`, a string literal without quotes.
    Keyword(String),
    Punct(Punct),
}

/// A token with its text as a sequence.
pub enum TokV {
    Ident(Seq<char>),
    Num(Seq<char>),
    Str(Seq<char>),
    Keyword(Seq<char>),
    Punct(Punct),
}

impl View for Tok {
    type V = TokV;

    open spec fn view(&self) -> TokV {
        match *self {
            Tok::Ident(s) => TokV::Ident(s@),
            Tok::Num(s) => TokV::Num(s@),
            Tok::Str(s) => TokV::Str(s@),
            Tok::Keyword(s) => TokV::Keyword(s@),
            Tok::Punct(p) => TokV::Punct(p),
        }
    }
}

/// The tokens of `v`.
pub open spec fn toks_v(v: Seq<Tok>) -> Seq<TokV> {
    v.map_values(|t: Tok| t@)
}

/// The name of a punctuation token.
pub open spec fn punct_name(p: Punct) -> Seq<char> {
    match p {
        Punct::LParen => "LParen"@,
        Punct::RParen => "RParen"@,
        Punct::LBrace => "LBrace"@,
        Punct::RBrace => "RBrace"@,
        Punct::LBracket => "LBracket"@,
        Punct::RBracket => "RBracket"@,
        Punct::Comma => "Comma"@,
        Punct::Semi => "Semi"@,
        Punct::Bang => "Bang"@,
        Punct::Dot => "Dot"@,
        Punct::DotDot => "DotDot"@,
        Punct::Assign => "Assign"@,
        Punct::FatArrow => "FatArrow"@,
        Punct::Eq => "Eq"@,
        Punct::Ne => "Ne"@,
        Punct::Lt => "Lt"@,
        Punct::Gt => "Gt"@,
        Punct::Le => "Le"@,
        Punct::Ge => "Ge"@,
        Punct::Plus => "Plus"@,
        Punct::Minus => "Minus"@,
        Punct::Star => "Star"@,
        Punct::Slash => "Slash"@,
        Punct::Percent => "Percent"@,
        Punct::AndAnd => "AndAnd"@,
        Punct::OrOr => "OrOr"@,
    }
}

/// How messages show a token: its kind, and its text in quotes.
pub open spec fn tok_text(t: TokV) -> Seq<char> {
    match t {
        TokV::Ident(s) => "Ident("@ + debug_of_text(s) + ")"@,
        TokV::Num(s) => "Num("@ + debug_of_text(s) + ")"@,
        TokV::Str(s) => "Str("@ + debug_of_text(s) + ")"@,
        TokV::Keyword(s) => "Keyword("@ + debug_of_text(s) + ")"@,
        TokV::Punct(p) => punct_name(p),
    }
}

fn punct_str(p: Punct) -> (r: &'static str)
    ensures
        r@ == punct_name(p),
{
    match p {
        Punct::LParen => "LParen",
        Punct::RParen => "RParen",
        Punct::LBrace => "LBrace",
        Punct::RBrace => "RBrace",
        Punct::LBracket => "LBracket",
        Punct::RBracket => "RBracket",
        Punct::Comma => "Comma",
        Punct::Semi => "Semi",
        Punct::Bang => "Bang",
        Punct::Dot => "Dot",
        Punct::DotDot => "DotDot",
        Punct::Assign => "Assign",
        Punct::FatArrow => "FatArrow",
        Punct::Eq => "Eq",
        Punct::Ne => "Ne",
        Punct::Lt => "Lt",
        Punct::Gt => "Gt",
        Punct::Le => "Le",
        Punct::Ge => "Ge",
        Punct::Plus => "Plus",
        Punct::Minus => "Minus",
        Punct::Star => "Star",
        Punct::Slash => "Slash",
        Punct::Percent => "Percent",
        Punct::AndAnd => "AndAnd",
        Punct::OrOr => "OrOr",
    }
}

fn quoted(name: &str, s: &str) -> (r: String)
    ensures
        r@ == name@ + debug_of_text(s@) + ")"@,
{
    let mut r: String = name.to_owned();
    let d: String = debug_text(s);
    r.append(d.as_str());
    r.append(")");
    r
}

/// How messages show a token.
pub fn describe(t: &Tok) -> (r: String)
    ensures
        r@ == tok_text(t@),
{
    match t {
        Tok::Ident(s) => quoted("Ident(", s.as_str()),
        Tok::Num(s) => quoted("Num(", s.as_str()),
        Tok::Str(s) => quoted("Str(", s.as_str()),
        Tok::Keyword(s) => quoted("Keyword(", s.as_str()),
        Tok::Punct(p) => punct_str(*p).to_owned(),
    }
}

/// A copy of `t`.
pub fn copy_tok(t: &Tok) -> (r: Tok)
    ensures
        r@ == t@,
{
    match t {
        Tok::Ident(s) => Tok::Ident(s.clone()),
        Tok::Num(s) => Tok::Num(s.clone()),
        Tok::Str(s) => Tok::Str(s.clone()),
        Tok::Keyword(s) => Tok::Keyword(s.clone()),
        Tok::Punct(p) => Tok::Punct(*p),
    }
}

/// `c` may stand in an identifier.
pub open spec fn is_word(c: char) -> bool {
    is_alpha(c) || is_digit(c) || c == '_'
}

/// Where the identifier characters that start at `i` end.
pub open spec fn word_end(cs: Seq<char>, i: int) -> int
    decreases cs.len() - i,
{
    if 0 <= i < cs.len() && is_word(cs[i]) {
        word_end(cs, i + 1)
    } else {
        i
    }
}

/// Where the keyword characters (those of an identifier, and `-`) that start
/// at `i` end.
pub open spec fn keyword_end(cs: Seq<char>, i: int) -> int
    decreases cs.len() - i,
{
    if 0 <= i < cs.len() && (is_word(cs[i]) || cs[i] == '-') {
        keyword_end(cs, i + 1)
    } else {
        i
    }
}

/// Where the number that starts at `i` ends: digits and points, but `..` is an
/// operator.
pub open spec fn num_end(cs: Seq<char>, i: int) -> int
    decreases cs.len() - i,
{
    if 0 <= i < cs.len() && (is_digit(cs[i]) || (cs[i] == '.' && !(i + 1 < cs.len() && cs[i + 1]
        == '.'))) {
        num_end(cs, i + 1)
    } else {
        i
    }
}

/// Where the line that holds `i` ends.
pub open spec fn line_end(cs: Seq<char>, i: int) -> int
    decreases cs.len() - i,
{
    if 0 <= i < cs.len() && cs[i] != '\n' {
        line_end(cs, i + 1)
    } else {
        i
    }
}

/// What a backslash and `c` stand for in a string literal.
pub open spec fn unescape(c: char) -> char {
    if c == 'n' {
        '\n'
    } else if c == 't' {
        '\t'
    } else {
        c
    }
}

/// The string literal whose text starts at `i`: what it stands for, and the
/// place behind its closing quote.
pub open spec fn str_body(cs: Seq<char>, i: int) -> Option<(Seq<char>, int)>
    decreases cs.len() - i,
{
    if i < 0 || i >= cs.len() {
        None
    } else if cs[i] == '"' {
        Some((Seq::empty(), i + 1))
    } else if cs[i] == '\\' && i + 1 < cs.len() {
        match str_body(cs, i + 2) {
            Some((s, e)) => Some((seq![unescape(cs[i + 1])] + s, e)),
            None => None,
        }
    } else {
        match str_body(cs, i + 1) {
            Some((s, e)) => Some((seq![cs[i]] + s, e)),
            None => None,
        }
    }
}

/// The operator at `i`, and its length.
pub open spec fn punct_at(cs: Seq<char>, i: int) -> Option<(Punct, int)> {
    let c = cs[i];
    let d = if i + 1 < cs.len() {
        cs[i + 1]
    } else {
        ' '
    };
    if c == '(' {
        Some((Punct::LParen, 1))
    } else if c == ')' {
        Some((Punct::RParen, 1))
    } else if c == '{' {
        Some((Punct::LBrace, 1))
    } else if c == '}' {
        Some((Punct::RBrace, 1))
    } else if c == '[' {
        Some((Punct::LBracket, 1))
    } else if c == ']' {
        Some((Punct::RBracket, 1))
    } else if c == ',' {
        Some((Punct::Comma, 1))
    } else if c == ';' {
        Some((Punct::Semi, 1))
    } else if c == '+' {
        Some((Punct::Plus, 1))
    } else if c == '-' {
        Some((Punct::Minus, 1))
    } else if c == '*' {
        Some((Punct::Star, 1))
    } else if c == '/' {
        Some((Punct::Slash, 1))
    } else if c == '%' {
        Some((Punct::Percent, 1))
    } else if c == '.' && d == '.' {
        Some((Punct::DotDot, 2))
    } else if c == '.' {
        Some((Punct::Dot, 1))
    } else if c == '=' && d == '=' {
        Some((Punct::Eq, 2))
    } else if c == '=' && d == '>' {
        Some((Punct::FatArrow, 2))
    } else if c == '=' {
        Some((Punct::Assign, 1))
    } else if c == '!' && d == '=' {
        Some((Punct::Ne, 2))
    } else if c == '!' {
        Some((Punct::Bang, 1))
    } else if c == '<' && d == '=' {
        Some((Punct::Le, 2))
    } else if c == '<' {
        Some((Punct::Lt, 1))
    } else if c == '>' && d == '=' {
        Some((Punct::Ge, 2))
    } else if c == '>' {
        Some((Punct::Gt, 1))
    } else if c == '&' && d == '&' {
        Some((Punct::AndAnd, 2))
    } else if c == '|' && d == '|' {
        Some((Punct::OrOr, 2))
    } else {
        None
    }
}

/// What stands at `i`: the token there, if it is not blank or a comment, and
/// where what follows begins; or why there is none.
pub open spec fn lex_at(cs: Seq<char>, i: int) -> Result<(Option<TokV>, int), Seq<char>> {
    let c = cs[i];
    if c == ' ' || c == '\t' || c == '\r' || c == '\n' {
        Ok((None, i + 1))
    } else if c == '/' && i + 1 < cs.len() && cs[i + 1] == '/' {
        Ok((None, line_end(cs, i)))
    } else if c == ':' {
        let e = keyword_end(cs, i + 1);
        if e == i + 1 {
            Err("expected identifier after ':'"@)
        } else {
            Ok((Some(TokV::Keyword(cs.subrange(i + 1, e))), e))
        }
    } else if c == '"' {
        match str_body(cs, i + 1) {
            Some((s, e)) => Ok((Some(TokV::Str(s)), e)),
            None => Err("unterminated string"@),
        }
    } else if is_digit(c) {
        let e = num_end(cs, i);
        Ok((Some(TokV::Num(cs.subrange(i, e))), e))
    } else if is_alpha(c) || c == '_' {
        let e = word_end(cs, i);
        Ok((Some(TokV::Ident(cs.subrange(i, e))), e))
    } else {
        match punct_at(cs, i) {
            Some((p, n)) => Ok((Some(TokV::Punct(p)), i + n)),
            None => Err("unexpected character: "@ + debug_of_char(c)),
        }
    }
}

/// The tokens from `i` on, or the first reason why there are none.
pub open spec fn lex_from(cs: Seq<char>, i: int) -> Result<Seq<TokV>, Seq<char>>
    decreases cs.len() - i,
{
    if i < 0 || i >= cs.len() {
        Ok(Seq::empty())
    } else {
        match lex_at(cs, i) {
            Err(m) => Err(m),
            Ok((t, j)) => if !(i < j <= cs.len()) {
                Err(Seq::empty())
            } else {
                match lex_from(cs, j) {
                    Err(m) => Err(m),
                    Ok(ts) => Ok(
                        match t {
                            Some(t) => seq![t] + ts,
                            None => ts,
                        },
                    ),
                }
            },
        }
    }
}

/// Every reading moves on, and not past the end.
proof fn lemma_ends(cs: Seq<char>, i: int)
    requires
        0 <= i <= cs.len(),
    ensures
        i <= word_end(cs, i) <= cs.len(),
        i <= keyword_end(cs, i) <= cs.len(),
        i <= num_end(cs, i) <= cs.len(),
        i <= line_end(cs, i) <= cs.len(),
        str_body(cs, i) matches Some((_, e)) ==> i < e <= cs.len(),
    decreases cs.len() - i,
{
    if i < cs.len() {
        lemma_ends(cs, i + 1);
        if i + 1 < cs.len() {
            lemma_ends(cs, i + 2);
        }
    }
}

fn find_word_end(cs: &[char], start: usize) -> (e: usize)
    requires
        start <= cs@.len(),
    ensures
        e == word_end(cs@, start as int),
        start <= e <= cs@.len(),
{
    let mut i: usize = start;
    while i < cs.len() && (is_alpha_exec(cs[i]) || is_digit_exec(cs[i]) || cs[i] == '_')
        invariant
            start <= i <= cs@.len(),
            word_end(cs@, i as int) == word_end(cs@, start as int),
        decreases cs@.len() - i,
    {
        i = i + 1;
    }
    i
}

fn find_keyword_end(cs: &[char], start: usize) -> (e: usize)
    requires
        start <= cs@.len(),
    ensures
        e == keyword_end(cs@, start as int),
        start <= e <= cs@.len(),
{
    let mut i: usize = start;
    while i < cs.len() && (is_alpha_exec(cs[i]) || is_digit_exec(cs[i]) || cs[i] == '_' || cs[i]
        == '-')
        invariant
            start <= i <= cs@.len(),
            keyword_end(cs@, i as int) == keyword_end(cs@, start as int),
        decreases cs@.len() - i,
    {
        i = i + 1;
    }
    i
}

fn find_num_end(cs: &[char], start: usize) -> (e: usize)
    requires
        start <= cs@.len(),
    ensures
        e == num_end(cs@, start as int),
        start <= e <= cs@.len(),
{
    let mut i: usize = start;
    while i < cs.len() && (is_digit_exec(cs[i]) || (cs[i] == '.' && !(i + 1 < cs.len() && cs[i + 1]
        == '.')))
        invariant
            start <= i <= cs@.len(),
            num_end(cs@, i as int) == num_end(cs@, start as int),
        decreases cs@.len() - i,
    {
        i = i + 1;
    }
    i
}

fn find_line_end(cs: &[char], start: usize) -> (e: usize)
    requires
        start <= cs@.len(),
    ensures
        e == line_end(cs@, start as int),
        start <= e <= cs@.len(),
{
    let mut i: usize = start;
    while i < cs.len() && cs[i] != '\n'
        invariant
            start <= i <= cs@.len(),
            line_end(cs@, i as int) == line_end(cs@, start as int),
        decreases cs@.len() - i,
    {
        i = i + 1;
    }
    i
}

fn read_str(cs: &[char], start: usize) -> (r: Option<(String, usize)>)
    requires
        start <= cs@.len(),
    ensures
        match (r, str_body(cs@, start as int)) {
            (Some((s, e)), Some((t, f))) => s@ == t && e == f && e <= cs@.len(),
            (None, None) => true,
            _ => false,
        },
{
    let mut s: String = String::new();
    let mut i: usize = start;
    proof {
        if let Some((t, f)) = str_body(cs@, i as int) {
            assert(s@ + t =~= t);
        }
    }
    while i < cs.len() && cs[i] != '"'
        invariant
            start <= i <= cs@.len(),
            str_body(cs@, start as int) == (match str_body(cs@, i as int) {
                Some((t, f)) => Some((s@ + t, f)),
                None => None,
            }),
        decreases cs@.len() - i,
    {
        let ghost before = s@;
        let ghost at = i as int;
        if cs[i] == '\\' && i + 1 < cs.len() {
            i = i + 1;
            let c = if cs[i] == 'n' {
                '\n'
            } else if cs[i] == 't' {
                '\t'
            } else {
                cs[i]
            };
            s.push(c);
        } else {
            s.push(cs[i]);
        }
        i = i + 1;
        proof {
            if let Some((t, f)) = str_body(cs@, i as int) {
                let (u, g) = str_body(cs@, at)->0;
                assert(before + u =~= s@ + t);
            }
        }
    }
    if i >= cs.len() {
        None
    } else {
        proof {
            assert(s@ + Seq::<char>::empty() =~= s@);
        }
        Some((s, i + 1))
    }
}

fn read_punct(cs: &[char], i: usize) -> (r: Option<(Punct, usize)>)
    requires
        i < cs@.len(),
    ensures
        match (r, punct_at(cs@, i as int)) {
            (Some((p, n)), Some((q, m))) => p == q && n == m && 1 <= n <= 2 && i + n <= cs@.len(),
            (None, None) => true,
            _ => false,
        },
{
    let c = cs[i];
    let d = if i + 1 < cs.len() {
        cs[i + 1]
    } else {
        ' '
    };
    match c {
        '(' => Some((Punct::LParen, 1)),
        ')' => Some((Punct::RParen, 1)),
        '{' => Some((Punct::LBrace, 1)),
        '}' => Some((Punct::RBrace, 1)),
        '[' => Some((Punct::LBracket, 1)),
        ']' => Some((Punct::RBracket, 1)),
        ',' => Some((Punct::Comma, 1)),
        ';' => Some((Punct::Semi, 1)),
        '+' => Some((Punct::Plus, 1)),
        '-' => Some((Punct::Minus, 1)),
        '*' => Some((Punct::Star, 1)),
        '/' => Some((Punct::Slash, 1)),
        '%' => Some((Punct::Percent, 1)),
        '.' => if d == '.' { Some((Punct::DotDot, 2)) } else { Some((Punct::Dot, 1)) },
        '=' => if d == '=' {
            Some((Punct::Eq, 2))
        } else if d == '>' {
            Some((Punct::FatArrow, 2))
        } else {
            Some((Punct::Assign, 1))
        },
        '!' => if d == '=' { Some((Punct::Ne, 2)) } else { Some((Punct::Bang, 1)) },
        '<' => if d == '=' { Some((Punct::Le, 2)) } else { Some((Punct::Lt, 1)) },
        '>' => if d == '=' { Some((Punct::Ge, 2)) } else { Some((Punct::Gt, 1)) },
        '&' => if d == '&' { Some((Punct::AndAnd, 2)) } else { None },
        '|' => if d == '|' { Some((Punct::OrOr, 2)) } else { None },
        _ => None,
    }
}

/// The token at `i`, if any, and where what follows begins.
fn next_tok(cs: &[char], i: usize) -> (r: Result<(Option<Tok>, usize), String>)
    requires
        i < cs@.len(),
    ensures
        match (r, lex_at(cs@, i as int)) {
            (Ok((t, e)), Ok((u, f))) => {
                &&& e == f
                &&& i < e <= cs@.len()
                &&& match (t, u) {
                    (Some(t), Some(u)) => t@ == u,
                    (None, None) => true,
                    _ => false,
                }
            },
            (Err(m), Err(w)) => m@ == w,
            _ => false,
        },
{
    proof {
        lemma_ends(cs@, i as int);
        lemma_ends(cs@, i + 1);
    }
    let c = cs[i];
    if c == ' ' || c == '\t' || c == '\r' || c == '\n' {
        return Ok((None, i + 1));
    }
    if c == '/' && i + 1 < cs.len() && cs[i + 1] == '/' {
        let e: usize = find_line_end(cs, i);
        return Ok((None, e));
    }
    if c == ':' {
        let e: usize = find_keyword_end(cs, i + 1);
        if e == i + 1 {
            return Err("expected identifier after ':'".to_owned());
        }
        return Ok((Some(Tok::Keyword(slice_of(cs, i + 1, e))), e));
    }
    if c == '"' {
        return match read_str(cs, i + 1) {
            Some((s, e)) => Ok((Some(Tok::Str(s)), e)),
            None => Err("unterminated string".to_owned()),
        };
    }
    if is_digit_exec(c) {
        let e: usize = find_num_end(cs, i);
        return Ok((Some(Tok::Num(slice_of(cs, i, e))), e));
    }
    if is_alpha_exec(c) || c == '_' {
        let e: usize = find_word_end(cs, i);
        return Ok((Some(Tok::Ident(slice_of(cs, i, e))), e));
    }
    match read_punct(cs, i) {
        Some((p, n)) => Ok((Some(Tok::Punct(p)), i + n)),
        None => {
            let mut m: String = "unexpected character: ".to_owned();
            let d: String = debug_char(c);
            m.append(d.as_str());
            Err(m)
        },
    }
}

/// The tokens of `src`, or why it has none.
pub fn lex(src: &str) -> (r: Result<Vec<Tok>, String>)
    ensures
        match (r, lex_from(src@, 0)) {
            (Ok(v), Ok(ts)) => toks_v(v@) == ts,
            (Err(m), Err(w)) => m@ == w,
            _ => false,
        },
{
    let cs: Vec<char> = chars_of(src);
    let mut out: Vec<Tok> = Vec::new();
    let mut i: usize = 0;
    proof {
        if let Ok(ts) = lex_from(cs@, 0) {
            assert(toks_v(out@) + ts =~= ts);
        }
    }
    while i < cs.len()
        invariant
            i <= cs@.len(),
            cs@ == src@,
            lex_from(cs@, 0) == (match lex_from(cs@, i as int) {
                Ok(ts) => Ok::<Seq<TokV>, Seq<char>>(toks_v(out@) + ts),
                Err(m) => Err(m),
            }),
        decreases cs@.len() - i,
    {
        match next_tok(cs.as_slice(), i) {
            Err(m) => {
                return Err(m);
            },
            Ok((t, e)) => {
                let ghost before = out@;
                let ghost at = i as int;
                if let Some(t) = t {
                    out.push(t);
                    proof {
                        if let Ok(ts) = lex_from(cs@, e as int) {
                            assert(toks_v(before) + (seq![t@] + ts) =~= toks_v(out@) + ts);
                        }
                    }
                }
                i = e;
            },
        }
    }
    assert(toks_v(out@) + Seq::<TokV>::empty() =~= toks_v(out@));
    Ok(out)
}

} // verus!
