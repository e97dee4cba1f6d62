//! Texts that models answer with: scores, markers and tags.

use crate::text::{chars_of, digits_value, is_digit, is_digit_exec, string_of, trim, trimmed};
use vstd::prelude::*;
use vstd::string::*;

verus! {

/// The end of the run of digits at `j`.
pub open spec fn run_end(s: Seq<char>, j: int) -> int
    decreases s.len() - j,
{
    if j < 0 || j >= s.len() || !is_digit(s[j]) {
        j
    } else {
        run_end(s, j + 1)
    }
}

/// `n` within the range of votes.
pub open spec fn clamped(n: int) -> i32 {
    if n < -50 {
        -50i32
    } else if n > 50 {
        50i32
    } else {
        n as i32
    }
}

/// Where the digits of a number at `i` would begin: behind a minus sign.
pub open spec fn digits_from(s: Seq<char>, i: int) -> int {
    if s[i] == '-' {
        i + 1
    } else {
        i
    }
}

/// The number written in `s` from `i` up to `to`, whatever its size.
pub open spec fn number_at(s: Seq<char>, i: int, to: int) -> int {
    let v = digits_value(s.subrange(digits_from(s, i), to));
    if s[i] == '-' {
        -v
    } else {
        v
    }
}

/// The last number from `i` on, clamped, or `last` where there is none.
pub open spec fn score_from(s: Seq<char>, i: int, last: Option<i32>) -> Option<i32>
    decreases s.len() - i,
{
    if i < 0 || i >= s.len() {
        last
    } else {
        let from = digits_from(s, i);
        let to = run_end(s, from);
        if i < to && from < to <= s.len() {
            score_from(s, to, Some(clamped(number_at(s, i, to))))
        } else {
            score_from(s, i + 1, last)
        }
    }
}

proof fn lemma_run_end(s: Seq<char>, j: int)
    requires
        0 <= j <= s.len(),
    ensures
        j <= run_end(s, j) <= s.len(),
        forall|k: int| j <= k < run_end(s, j) ==> is_digit(#[trigger] s[k]),
    decreases s.len() - j,
{
    if j < s.len() && is_digit(s[j]) {
        lemma_run_end(s, j + 1);
    }
}

/// What the digits from `from` up to `to` write, or 50 where that is less.
fn digits_up_to_50(s: &[char], from: usize, to: usize) -> (r: i32)
    requires
        from <= to <= s@.len(),
        forall|k: int| from <= k < to ==> is_digit(#[trigger] s@[k]),
    ensures
        r == clamped(digits_value(s@.subrange(from as int, to as int))),
        0 <= r <= 50,
        digits_value(s@.subrange(from as int, to as int)) >= 0,
{
    let mut v: i32 = 0;
    let mut i: usize = from;
    while i < to
        invariant
            from <= i <= to <= s@.len(),
            forall|k: int| from <= k < to ==> is_digit(#[trigger] s@[k]),
            0 <= v <= 50,
            digits_value(s@.subrange(from as int, i as int)) >= 0,
            v == clamped(digits_value(s@.subrange(from as int, i as int))),
        decreases to - i,
    {
        proof {
            let t = s@.subrange(from as int, i + 1);
            assert(t.drop_last() =~= s@.subrange(from as int, i as int));
            assert(is_digit(s@[i as int]));
            assert(t.last() == s@[i as int]);
        }
        let next: i32 = v * 10 + (s[i] as i32 - 48);
        v = if next > 50 {
            50
        } else {
            next
        };
        i = i + 1;
    }
    v
}

/// The last number in `text`, clamped to the range of votes; none where there
/// is no number.
pub fn parse_score(text: &str) -> (r: Option<i32>)
    ensures
        r == score_from(text@, 0, None),
{
    let s: Vec<char> = chars_of(text);
    let mut i: usize = 0;
    let mut last: Option<i32> = None;
    while i < s.len()
        invariant
            i <= s@.len(),
            s@ == text@,
            score_from(text@, 0, None) == score_from(s@, i as int, last),
        decreases s@.len() - i,
    {
        let from: usize = if s[i] == '-' {
            i + 1
        } else {
            i
        };
        let mut to: usize = from;
        while to < s.len() && is_digit_exec(s[to])
            invariant
                from <= to <= s@.len(),
                run_end(s@, from as int) == run_end(s@, to as int),
            decreases s@.len() - to,
        {
            to = to + 1;
        }
        proof {
            lemma_run_end(s@, from as int);
        }
        if to > from {
            let v: i32 = digits_up_to_50(s.as_slice(), from, to);
            last = if s[i] == '-' {
                Some(-v)
            } else {
                Some(v)
            };
            i = to;
        } else {
            i = i + 1;
        }
    }
    last
}

fn part_of(s: &[char], from: usize, to: usize) -> (r: Vec<char>)
    requires
        from <= to <= s@.len(),
    ensures
        r@ == s@.subrange(from as int, to as int),
{
    let mut out: Vec<char> = Vec::new();
    let mut i: usize = from;
    while i < to
        invariant
            from <= i <= to <= s@.len(),
            out@ == s@.subrange(from as int, i as int),
        decreases to - i,
    {
        out.push(s[i]);
        i = i + 1;
    }
    out
}

/// `n` stands in `s` at `i`.
pub open spec fn occurs_at(s: Seq<char>, n: Seq<char>, i: int) -> bool {
    0 <= i && i + n.len() <= s.len() && s.subrange(i, i + n.len()) == n
}

/// The first place from `i` on where `n` stands in `s`.
pub open spec fn first_at(s: Seq<char>, n: Seq<char>, i: int) -> Option<int>
    decreases s.len() - i,
{
    if i < 0 || i + n.len() > s.len() {
        None
    } else if occurs_at(s, n, i) {
        Some(i)
    } else if i < s.len() {
        first_at(s, n, i + 1)
    } else {
        None
    }
}

/// `s` without the texts `n` in it, found from the left.
pub open spec fn without(s: Seq<char>, n: Seq<char>) -> Seq<char>
    decreases s.len(),
{
    if n.len() == 0 || s.len() < n.len() {
        s
    } else if occurs_at(s, n, 0) {
        without(s.skip(n.len() as int), n)
    } else {
        seq![s[0]] + without(s.skip(1), n)
    }
}

fn stands_at(s: &Vec<char>, n: &Vec<char>, i: usize) -> (r: bool)
    requires
        i <= s@.len(),
    ensures
        r == occurs_at(s@, n@, i as int),
{
    if n.len() > s.len() - i {
        return false;
    }
    let mut k: usize = 0;
    while k < n.len()
        invariant
            k <= n@.len(),
            i + n@.len() <= s.len(),
            forall|j: int| 0 <= j < k ==> s@[i + j] == n@[j],
        decreases n@.len() - k,
    {
        if s[i + k] != n[k] {
            assert(s@.subrange(i as int, i + n@.len())[k as int] != n@[k as int]);
            return false;
        }
        k = k + 1;
    }
    assert(s@.subrange(i as int, i + n@.len()) =~= n@);
    true
}

fn find(s: &Vec<char>, n: &Vec<char>) -> (r: Option<usize>)
    ensures
        match (r, first_at(s@, n@, 0)) {
            (Some(i), Some(k)) => i == k && i <= s@.len(),
            (None, None) => true,
            _ => false,
        },
{
    let mut i: usize = 0;
    while i < s.len()
        invariant
            i <= s@.len(),
            first_at(s@, n@, 0) == first_at(s@, n@, i as int),
        decreases s@.len() - i,
    {
        if stands_at(s, n, i) {
            return Some(i);
        }
        if n.len() > s.len() - i {
            return None;
        }
        i = i + 1;
    }
    if stands_at(s, n, i) {
        Some(i)
    } else {
        None
    }
}

/// `hay` holds `needle`, which is not empty.
pub fn has_substr(hay: &str, needle: &str) -> (r: bool)
    ensures
        r == (needle@.len() > 0 && exists|i: int| occurs_at(hay@, needle@, i)),
{
    let s: Vec<char> = chars_of(hay);
    let n: Vec<char> = chars_of(needle);
    if n.len() == 0 {
        return false;
    }
    match find(&s, &n) {
        Some(i) => {
            proof {
                lemma_first_at(s@, n@, 0);
            }
            true
        },
        None => {
            proof {
                lemma_first_at(s@, n@, 0);
            }
            false
        },
    }
}

proof fn lemma_first_at(s: Seq<char>, n: Seq<char>, i: int)
    requires
        0 <= i,
    ensures
        match first_at(s, n, i) {
            Some(k) => i <= k && occurs_at(s, n, k) && (forall|j: int|
                i <= j < k ==> !occurs_at(s, n, j)),
            None => forall|j: int| i <= j ==> !occurs_at(s, n, j),
        },
    decreases s.len() - i,
{
    if i + n.len() <= s.len() && !occurs_at(s, n, i) && i < s.len() {
        lemma_first_at(s, n, i + 1);
    }
}

/// What stands in `text` before `needle`, trimmed; `text` itself where
/// `needle` is not in it.
pub open spec fn before_of(text: Seq<char>, needle: Seq<char>) -> Seq<char> {
    if needle.len() == 0 {
        text
    } else {
        match first_at(text, needle, 0) {
            Some(i) => trimmed(text.take(i)),
            None => text,
        }
    }
}

pub fn before(text: &str, needle: &str) -> (r: String)
    ensures
        r@ == before_of(text@, needle@),
{
    let s: Vec<char> = chars_of(text);
    let n: Vec<char> = chars_of(needle);
    if n.len() == 0 {
        return text.to_owned();
    }
    match find(&s, &n) {
        Some(i) => {
            let part: Vec<char> = part_of(s.as_slice(), 0, i);
            assert(part@ =~= text@.take(i as int));
            string_of(trim(part.as_slice()).as_slice())
        },
        None => text.to_owned(),
    }
}

fn removed(s: &Vec<char>, n: &Vec<char>) -> (r: Vec<char>)
    requires
        n@.len() > 0,
    ensures
        r@ == without(s@, n@),
{
    let mut out: Vec<char> = Vec::new();
    let mut i: usize = 0;
    proof {
        assert(s@.skip(0) =~= s@);
        assert(out@ + without(s@.skip(0), n@) =~= without(s@, n@));
    }
    while i < s.len()
        invariant
            i <= s@.len(),
            n@.len() > 0,
            without(s@, n@) == out@ + without(s@.skip(i as int), n@),
        decreases s@.len() - i,
    {
        let ghost rest = s@.skip(i as int);
        if stands_at(s, n, i) {
            proof {
                assert(rest.subrange(0, n@.len() as int) =~= s@.subrange(
                    i as int,
                    i + n@.len(),
                ));
                assert(occurs_at(rest, n@, 0));
                assert(rest.skip(n@.len() as int) =~= s@.skip(i + n@.len()));
            }
            i = i + n.len();
        } else {
            let ghost before = out@;
            proof {
                if occurs_at(rest, n@, 0) {
                    assert(rest.subrange(0, n@.len() as int) =~= s@.subrange(
                        i as int,
                        i + n@.len(),
                    ));
                }
                assert(rest.skip(1) =~= s@.skip(i + 1));
                if rest.len() < n@.len() {
                    assert(rest =~= seq![rest[0]] + rest.skip(1));
                }
            }
            out.push(s[i]);
            assert(out@ + without(s@.skip(i + 1), n@) =~= before + (seq![rest[0]] + without(
                rest.skip(1),
                n@,
            )));
            i = i + 1;
        }
    }
    assert(s@.skip(i as int) =~= Seq::<char>::empty());
    assert(without(s@.skip(i as int), n@) =~= Seq::<char>::empty());
    assert(out@ =~= without(s@, n@));
    out
}

/// `text` without the texts `needle` in it, trimmed; `text` itself for an
/// empty `needle`.
pub open spec fn cut_of(text: Seq<char>, needle: Seq<char>) -> Seq<char> {
    if needle.len() == 0 {
        text
    } else {
        trimmed(without(text, needle))
    }
}

pub fn cut(text: &str, needle: &str) -> (r: String)
    ensures
        r@ == cut_of(text@, needle@),
{
    let s: Vec<char> = chars_of(text);
    let n: Vec<char> = chars_of(needle);
    if n.len() == 0 {
        return text.to_owned();
    }
    let rest: Vec<char> = removed(&s, &n);
    string_of(trim(rest.as_slice()).as_slice())
}

/// `s` without the tag `name`, open and closed.
pub open spec fn untagged(s: Seq<char>, name: Seq<char>) -> Seq<char> {
    without(without(s, "<"@ + name + ">"@), "</"@ + name + ">"@)
}

/// `s` without the tags of memories, trimmed.
pub open spec fn stripped(s: Seq<char>) -> Seq<char> {
    trimmed(
        untagged(
            untagged(untagged(untagged(s, "thought"@), "response"@), "message"@),
            "declaration"@,
        ),
    )
}

fn untag(s: &Vec<char>, name: &str) -> (r: Vec<char>)
    ensures
        r@ == untagged(s@, name@),
{
    let mut open: String = "<".to_owned();
    open.append(name);
    open.append(">");
    let mut close: String = "</".to_owned();
    close.append(name);
    close.append(">");
    proof {
        reveal_strlit("<");
        reveal_strlit("</");
    }
    let a: Vec<char> = removed(s, &chars_of(open.as_str()));
    removed(&a, &chars_of(close.as_str()))
}

/// `text` without the tags of memories, trimmed.
pub fn strip_tags(text: &str) -> (r: String)
    ensures
        r@ == stripped(text@),
{
    let mut s: Vec<char> = chars_of(text);
    s = untag(&s, "thought");
    s = untag(&s, "response");
    s = untag(&s, "message");
    s = untag(&s, "declaration");
    string_of(trim(s.as_slice()).as_slice())
}

proof fn lemma_score_range(s: Seq<char>, i: int, last: Option<i32>)
    requires
        last matches Some(n) ==> -50 <= n <= 50,
    ensures
        score_from(s, i, last) matches Some(n) ==> -50 <= n <= 50,
    decreases s.len() - i,
{
    if 0 <= i && i < s.len() {
        let from = digits_from(s, i);
        let to = run_end(s, from);
        if i < to && from < to <= s.len() {
            lemma_score_range(s, to, Some(clamped(number_at(s, i, to))));
        } else {
            lemma_score_range(s, i + 1, last);
        }
    }
}

proof fn lemma_score_found(s: Seq<char>, i: int, last: Option<i32>)
    requires
        0 <= i <= s.len(),
    ensures
        score_from(s, i, last) is None <==> last is None && forall|k: int|
            i <= k < s.len() ==> !is_digit(#[trigger] s[k]),
    decreases s.len() - i,
{
    if i < s.len() {
        let from = digits_from(s, i);
        let to = run_end(s, from);
        if from <= s.len() {
            lemma_run_end(s, from);
        }
        if i < to && from < to <= s.len() {
            assert(is_digit(s[from]));
            lemma_score_found(s, to, Some(clamped(number_at(s, i, to))));
        } else {
            lemma_score_found(s, i + 1, last);
            if is_digit(s[i]) {
                lemma_run_end(s, i + 1);
            }
        }
    }
}

/// A text has a score just where a digit stands in it.
pub proof fn law_score_found(text: Seq<char>)
    ensures
        score_from(text, 0, None) is Some <==> exists|k: int|
            0 <= k < text.len() && is_digit(#[trigger] text[k]),
{
    lemma_score_found(text, 0, None);
}

/// A score is in the range of votes.
pub proof fn law_score_range(text: Seq<char>)
    ensures
        score_from(text, 0, None) matches Some(n) ==> -50 <= n <= 50,
{
    lemma_score_range(text, 0, None);
}

} // verus!
