//! How tokens are spelled in source, and what reading the spelling gives.

use crate::lexer::{
    lex_at, lex_from, line_end, num_end, str_body, word_end, Punct, TokV,
};
use vstd::prelude::*;
use vstd::string::*;

verus! {

/// The characters `w` stand at `i`.
pub open spec fn spelled_at(cs: Seq<char>, i: int, w: Seq<char>) -> bool {
    &&& 0 <= i
    &&& i + w.len() <= cs.len()
    &&& forall|k: int| 0 <= k < w.len() ==> cs[i + k] == #[trigger] w[k]
}

pub open spec fn is_letter(c: char) -> bool {
    ('a' <= c <= 'z') || ('A' <= c <= 'Z') || c == '_'
}

pub open spec fn is_figure(c: char) -> bool {
    '0' <= c <= '9'
}

proof fn lemma_word(cs: Seq<char>, i: int, w: Seq<char>, k: int)
    requires
        spelled_at(cs, i, w),
        0 <= k <= w.len(),
        forall|j: int| 0 <= j < w.len() ==> is_letter(#[trigger] w[j]) || is_figure(w[j]),
        i + w.len() < cs.len() ==> !is_letter(cs[i + w.len()]) && !is_figure(cs[i + w.len()]),
    ensures
        word_end(cs, i + k) == i + w.len(),
    decreases w.len() - k,
{
    if k < w.len() {
        assert(cs[i + k] == w[k]);
        lemma_word(cs, i, w, k + 1);
    }
}

/// A word is a name: letters and figures, of which the first is no figure, up to
/// the first character that is neither.
pub proof fn law_words_are_names(cs: Seq<char>, i: int, w: Seq<char>)
    requires
        spelled_at(cs, i, w),
        w.len() > 0,
        is_letter(w[0]),
        forall|j: int| 0 <= j < w.len() ==> is_letter(#[trigger] w[j]) || is_figure(w[j]),
        i + w.len() < cs.len() ==> !is_letter(cs[i + w.len()]) && !is_figure(cs[i + w.len()]),
    ensures
        lex_at(cs, i) == Ok::<(Option<TokV>, int), Seq<char>>(
            (Some(TokV::Ident(w)), i + w.len()),
        ),
{
    assert(cs[i + 0] == w[0]);
    lemma_word(cs, i, w, 0);
    assert(cs.subrange(i, i + w.len()) =~= w);
}

proof fn lemma_figures(cs: Seq<char>, i: int, w: Seq<char>, k: int)
    requires
        spelled_at(cs, i, w),
        0 <= k <= w.len(),
        forall|j: int| 0 <= j < w.len() ==> is_figure(#[trigger] w[j]),
        i + w.len() < cs.len() ==> cs[i + w.len()] != '.' && !is_figure(cs[i + w.len()]),
    ensures
        num_end(cs, i + k) == i + w.len(),
    decreases w.len() - k,
{
    if k < w.len() {
        assert(cs[i + k] == w[k]);
        lemma_figures(cs, i, w, k + 1);
    }
}

/// Figures are a number, up to the first character that is none and no point.
pub proof fn law_figures_are_numbers(cs: Seq<char>, i: int, w: Seq<char>)
    requires
        spelled_at(cs, i, w),
        w.len() > 0,
        forall|j: int| 0 <= j < w.len() ==> is_figure(#[trigger] w[j]),
        i + w.len() < cs.len() ==> cs[i + w.len()] != '.' && !is_figure(cs[i + w.len()]),
    ensures
        lex_at(cs, i) == Ok::<(Option<TokV>, int), Seq<char>>((Some(TokV::Num(w)), i + w.len())),
{
    assert(cs[i + 0] == w[0]);
    assert(is_figure(w[0]));
    lemma_figures(cs, i, w, 0);
    assert(cs.subrange(i, i + w.len()) =~= w);
}

/// How a character is written within quotes.
pub open spec fn in_quotes(c: char) -> Seq<char> {
    if c == '"' {
        seq!['\\', '"']
    } else if c == '\\' {
        seq!['\\', '\\']
    } else if c == '\n' {
        seq!['\\', 'n']
    } else if c == '\t' {
        seq!['\\', 't']
    } else {
        seq![c]
    }
}

/// A text within quotes, from its character `k` on, and the closing quote.
pub open spec fn quoted_from(s: Seq<char>, k: int) -> Seq<char>
    decreases s.len() - k,
{
    if k < 0 || k >= s.len() {
        seq!['"']
    } else {
        in_quotes(s[k]) + quoted_from(s, k + 1)
    }
}

proof fn lemma_quoted(cs: Seq<char>, i: int, s: Seq<char>, k: int)
    requires
        0 <= k <= s.len(),
        spelled_at(cs, i, quoted_from(s, k)),
    ensures
        str_body(cs, i) == Some((s.skip(k), i + quoted_from(s, k).len())),
    decreases s.len() - k,
{
    let w = quoted_from(s, k);
    if k == s.len() {
        assert(cs[i + 0] == w[0]);
        assert(s.skip(k) =~= Seq::<char>::empty());
    } else {
        let a = in_quotes(s[k]);
        let rest = quoted_from(s, k + 1);
        assert(w[0] == a[0]);
        assert(cs[i + 0] == w[0]);
        if a.len() == 2 {
            assert(w[1] == a[1]);
            assert(cs[i + 1] == w[1]);
        }
        let j = i + a.len();
        assert(spelled_at(cs, j, rest)) by {
            assert forall|m: int| 0 <= m < rest.len() implies cs[j + m] == #[trigger] rest[m] by {
                assert(w[a.len() + m] == rest[m]);
                assert(cs[i + (a.len() + m)] == w[a.len() + m]);
            }
        }
        lemma_quoted(cs, j, s, k + 1);
        assert(seq![s[k]] + s.skip(k + 1) =~= s.skip(k));
    }
}

/// A text that is written within quotes is read back as it was.
pub proof fn law_quoted_texts_read_back(cs: Seq<char>, i: int, s: Seq<char>)
    requires
        spelled_at(cs, i, seq!['"'] + quoted_from(s, 0)),
    ensures
        lex_at(cs, i) == Ok::<(Option<TokV>, int), Seq<char>>(
            (Some(TokV::Str(s)), i + 1 + quoted_from(s, 0).len()),
        ),
{
    let w = seq!['"'] + quoted_from(s, 0);
    let rest = quoted_from(s, 0);
    assert(w[0] == '"');
    assert(cs[i + 0] == w[0]);
    assert(spelled_at(cs, i + 1, rest)) by {
        assert forall|m: int| 0 <= m < rest.len() implies cs[i + 1 + m] == #[trigger] rest[m] by {
            assert(w[1 + m] == rest[m]);
            assert(cs[i + (1 + m)] == w[1 + m]);
        }
    }
    lemma_quoted(cs, i + 1, s, 0);
    assert(s.skip(0) =~= s);
}

/// How a sign is written: its first character and its second, a blank where it
/// has none.
pub open spec fn sign_text(p: Punct) -> (char, char) {
    match p {
        Punct::LParen => ('(', ' '),
        Punct::RParen => (')', ' '),
        Punct::LBrace => ('{', ' '),
        Punct::RBrace => ('}', ' '),
        Punct::LBracket => ('[', ' '),
        Punct::RBracket => (']', ' '),
        Punct::Comma => (',', ' '),
        Punct::Semi => (';', ' '),
        Punct::Bang => ('!', ' '),
        Punct::Dot => ('.', ' '),
        Punct::DotDot => ('.', '.'),
        Punct::Assign => ('=', ' '),
        Punct::FatArrow => ('=', '>'),
        Punct::Eq => ('=', '='),
        Punct::Ne => ('!', '='),
        Punct::Lt => ('<', ' '),
        Punct::Gt => ('>', ' '),
        Punct::Le => ('<', '='),
        Punct::Ge => ('>', '='),
        Punct::Plus => ('+', ' '),
        Punct::Minus => ('-', ' '),
        Punct::Star => ('*', ' '),
        Punct::Slash => ('/', ' '),
        Punct::Percent => ('%', ' '),
        Punct::AndAnd => ('&', '&'),
        Punct::OrOr => ('|', '|'),
    }
}

/// A sign that is written with a blank behind it is read back as it was.
pub proof fn law_signs_read_back(cs: Seq<char>, i: int, p: Punct)
    requires
        0 <= i,
        i + 1 < cs.len(),
        cs[i] == sign_text(p).0,
        cs[i + 1] == sign_text(p).1,
    ensures
        lex_at(cs, i) == Ok::<(Option<TokV>, int), Seq<char>>(
            (Some(TokV::Punct(p)), if sign_text(p).1 == ' ' { i + 1 } else { i + 2 }),
        ),
{
}

/// Blanks stand for nothing, and a comment stands for nothing up to the end of
/// its line.
pub proof fn law_blanks_and_comments_are_skipped(cs: Seq<char>, i: int, n: int)
    requires
        0 <= i < n <= cs.len(),
    ensures
        cs[i] == ' ' || cs[i] == '\t' || cs[i] == '\r' || cs[i] == '\n' ==> lex_at(cs, i) == Ok::<
            (Option<TokV>, int),
            Seq<char>,
        >((None, i + 1)),
        i + 2 <= n && cs[i] == '/' && cs[i + 1] == '/' && (forall|k: int|
            i <= k < n ==> #[trigger] cs[k] != '\n') && (n == cs.len() || cs[n] == '\n') ==> lex_at(
            cs,
            i,
        ) == Ok::<(Option<TokV>, int), Seq<char>>((None, n)),
{
    if forall|k: int| i <= k < n ==> #[trigger] cs[k] != '\n' {
        if n == cs.len() || cs[n] == '\n' {
            lemma_line(cs, i, n);
        }
    }
}

proof fn lemma_line(cs: Seq<char>, i: int, n: int)
    requires
        0 <= i <= n <= cs.len(),
        forall|k: int| i <= k < n ==> #[trigger] cs[k] != '\n',
        n == cs.len() || cs[n] == '\n',
    ensures
        line_end(cs, i) == n,
    decreases n - i,
{
    if i < n {
        assert(cs[i] != '\n');
        lemma_line(cs, i + 1, n);
    }
}

/// The tokens of a source are the one that stands first, and then those of what
/// follows it.
pub proof fn law_tokens_follow_each_other(cs: Seq<char>, i: int, t: Option<TokV>, j: int, rest: Seq<
    TokV,
>)
    requires
        0 <= i < j <= cs.len(),
        lex_at(cs, i) == Ok::<(Option<TokV>, int), Seq<char>>((t, j)),
        lex_from(cs, j) == Ok::<Seq<TokV>, Seq<char>>(rest),
    ensures
        lex_from(cs, i) == Ok::<Seq<TokV>, Seq<char>>(
            if t is Some {
                seq![t->Some_0] + rest
            } else {
                rest
            },
        ),
        lex_from(cs, cs.len() as int) == Ok::<Seq<TokV>, Seq<char>>(Seq::empty()),
{
}

} // verus!
