//! The guard in front of the server: a password, and the cookie that stands for
//! it.

use crate::text::{chars_of, is_white, string_of, text_eq, trim, trim_end, trim_start, trimmed};
use sha2::{Digest, Sha256};
use vstd::prelude::*;
use vstd::string::*;
use vstd::utf8::{decode_utf8, encode_utf8, valid_utf8};

verus! {

/// The name of the cookie.
pub const COOKIE: &'static str = "hop_auth";

/// The SHA-256 digest of the bytes, in hexadecimal.
pub uninterp spec fn sha256_hex(b: Seq<u8>) -> Seq<char>;

/// `c` is a lower-case hexadecimal digit.
pub open spec fn is_lower_hex(c: char) -> bool {
    '0' <= c <= '9' || 'a' <= c <= 'f'
}

/// `Sha256::digest`, printed in lower-case hexadecimal; the text is named. It
/// has two digits for each of the 32 bytes of the digest.
#[verifier::external_body]
fn digest_hex(b: &[u8]) -> (r: String)
    ensures
        r@ == sha256_hex(b@),
        r@.len() == 64,
        forall|i: int| 0 <= i < r@.len() ==> is_lower_hex(#[trigger] r@[i]),
{
    format!("{:x}", Sha256::digest(b))
}

/// The text of the bytes, with what is not UTF-8 replaced.
pub uninterp spec fn lossy(b: Seq<u8>) -> Seq<char>;

/// `String::from_utf8_lossy`: the text of the bytes where they are UTF-8; else
/// the text that it makes of them, which is named.
#[verifier::external_body]
fn text_lossy(b: &[u8]) -> (r: String)
    ensures
        r@ == lossy(b@),
        valid_utf8(b@) ==> r@ == decode_utf8(b@),
{
    String::from_utf8_lossy(b).into_owned()
}

/// The text can be the value of a cookie: it is not empty, holds no semicolon,
/// and does not end in white space.
pub open spec fn cookie_fit(s: Seq<char>) -> bool {
    s.len() > 0 && !s.contains(';') && !is_white(s.last())
}

/// The token of a password.
pub open spec fn hash_of(password: Seq<char>) -> Seq<char> {
    sha256_hex(encode_utf8("hop|"@ + password))
}

/// The token of a password.
pub fn hash_password(password: &str) -> (r: String)
    ensures
        r@ == hash_of(password@),
        r@.len() == 64,
        cookie_fit(r@),
{
    let mut s: String = "hop|".to_owned();
    s.append(password);
    let r: String = digest_hex(s.as_str().as_bytes());
    assert(is_lower_hex(r@[63]));
    r
}

/// The password that is set: the first of the two that is not empty.
pub open spec fn password_set(hop_password: Option<Seq<char>>, password: Option<Seq<char>>) -> Option<
    Seq<char>,
> {
    match hop_password {
        Some(p) => if p.len() > 0 {
            Some(p)
        } else {
            not_empty(password)
        },
        None => not_empty(password),
    }
}

/// The text, if it is one and not empty.
pub open spec fn not_empty(s: Option<Seq<char>>) -> Option<Seq<char>> {
    match s {
        Some(p) => if p.len() > 0 {
            Some(p)
        } else {
            None
        },
        None => None,
    }
}

/// The token that the guard asks for, if it asks for one.
pub open spec fn token_of(hop_password: Option<Seq<char>>, password: Option<Seq<char>>) -> Option<
    Seq<char>,
> {
    match password_set(hop_password, password) {
        Some(p) => Some(hash_of(p)),
        None => None,
    }
}

/// An optional text.
pub open spec fn opt(s: Option<&str>) -> Option<Seq<char>> {
    match s {
        Some(t) => Some(t@),
        None => None,
    }
}

/// An optional text.
pub open spec fn opt_string(s: Option<String>) -> Option<Seq<char>> {
    match s {
        Some(t) => Some(t@),
        None => None,
    }
}

/// The text is empty.
pub fn is_blank(s: &str) -> (r: bool)
    ensures
        r == (s@.len() == 0),
{
    proof {
        reveal_strlit("");
        if s@.len() == 0 {
            assert(s@ =~= ""@);
        }
    }
    text_eq(s, "")
}

/// The token that the guard asks for, given the values of `HOP_PASSWORD` and
/// `PASSWORD`.
pub fn token(hop_password: Option<&str>, password: Option<&str>) -> (r: Option<String>)
    ensures
        opt_string(r) == token_of(opt(hop_password), opt(password)),
        opt_string(r) matches Some(t) ==> cookie_fit(t),
{
    if let Some(p) = hop_password {
        if !is_blank(p) {
            return Some(hash_password(p));
        }
    }
    if let Some(p) = password {
        if !is_blank(p) {
            return Some(hash_password(p));
        }
    }
    None
}

/// The guard asks for a password.
pub fn required(token: &Option<String>) -> (r: bool)
    ensures
        r == (token is Some),
{
    token.is_some()
}

/// The place of the first `c` from `i` on; the length where there is none.
pub open spec fn char_place(s: Seq<char>, c: char, i: int) -> int
    decreases s.len() - i,
{
    if i < 0 || i >= s.len() || s[i] == c {
        i
    } else {
        char_place(s, c, i + 1)
    }
}

/// What stands before and behind the first `c`.
pub open spec fn split_once_of(s: Seq<char>, c: char) -> Option<(Seq<char>, Seq<char>)> {
    let i = char_place(s, c, 0);
    if i < s.len() {
        Some((s.take(i), s.skip(i + 1)))
    } else {
        None
    }
}

pub proof fn lemma_char_place(s: Seq<char>, c: char, i: int)
    requires
        0 <= i <= s.len(),
    ensures
        i <= char_place(s, c, i) <= s.len(),
    decreases s.len() - i,
{
    if i < s.len() && s[i] != c {
        lemma_char_place(s, c, i + 1);
    }
}

/// The place of the first `c` from `i` on.
pub fn find_char(s: &Vec<char>, c: char, i: usize) -> (r: usize)
    requires
        i <= s@.len(),
    ensures
        r == char_place(s@, c, i as int),
        i <= r <= s@.len(),
{
    let mut k: usize = i;
    while k < s.len() && s[k] != c
        invariant
            i <= k <= s@.len(),
            char_place(s@, c, i as int) == char_place(s@, c, k as int),
        decreases s@.len() - k,
    {
        k = k + 1;
    }
    k
}

/// The characters from `from` up to `to`.
pub fn chars_between(s: &Vec<char>, from: usize, to: usize) -> (r: Vec<char>)
    requires
        from <= to <= s@.len(),
    ensures
        r@ == s@.subrange(from as int, to as int),
{
    let mut out: Vec<char> = Vec::new();
    let mut i: usize = from;
    while i < to
        invariant
            from <= i <= to <= s@.len(),
            out@ == s@.subrange(from as int, i as int),
        decreases to - i,
    {
        out.push(s[i]);
        i = i + 1;
    }
    out
}

/// The value of the cookie `name` in one `name=value` part.
pub open spec fn cookie_part(part: Seq<char>, name: Seq<char>) -> Option<Seq<char>> {
    match split_once_of(trimmed(part), '=') {
        Some((k, v)) => if k == name && v.len() > 0 {
            Some(v)
        } else {
            None
        },
        None => None,
    }
}

/// The value of the cookie `name` in a header, from its first part that gives
/// one.
pub open spec fn cookie_named(s: Seq<char>, name: Seq<char>) -> Option<Seq<char>>
    decreases s.len(),
{
    let i = char_place(s, ';', 0);
    let rest = s.skip(i + 1);
    match cookie_part(s.take(i), name) {
        Some(v) => Some(v),
        None => if 0 <= i && i < s.len() && rest.len() < s.len() {
            cookie_named(rest, name)
        } else {
            None
        },
    }
}

fn read_part(part: &Vec<char>, name: &str) -> (r: Option<String>)
    ensures
        opt_string(r) == cookie_part(part@, name@),
{
    let t: Vec<char> = trim(part.as_slice());
    let i: usize = find_char(&t, '=', 0);
    if i >= t.len() {
        return None;
    }
    let k: Vec<char> = chars_between(&t, 0, i);
    let v: Vec<char> = chars_between(&t, i + 1, t.len());
    proof {
        assert(k@ =~= t@.take(i as int));
        assert(v@ =~= t@.skip(i + 1));
    }
    let key: String = string_of(k.as_slice());
    if text_eq(key.as_str(), name) && v.len() > 0 {
        Some(string_of(v.as_slice()))
    } else {
        None
    }
}

/// The value of the cookie `name` in a header.
pub fn find_cookie(header: &str, name: &str) -> (r: Option<String>)
    ensures
        opt_string(r) == cookie_named(header@, name@),
{
    let s: Vec<char> = chars_of(header);
    let mut from: usize = 0;
    assert(s@.skip(0) =~= s@);
    while from <= s.len()
        invariant
            from <= s@.len(),
            s@ == header@,
            cookie_named(header@, name@) == cookie_named(s@.skip(from as int), name@),
        decreases s@.len() - from,
    {
        let ghost rest = s@.skip(from as int);
        let i: usize = find_char(&s, ';', from);
        proof {
            lemma_char_place_skip(s@, ';', from as int, from as int);
            assert(rest.take(i - from) =~= s@.subrange(from as int, i as int));
        }
        let part: Vec<char> = chars_between(&s, from, i);
        match read_part(&part, name) {
            Some(v) => {
                return Some(v);
            },
            None => {
                if i >= s.len() {
                    return None;
                }
            },
        }
        assert(rest.skip(i - from + 1) =~= s@.skip(i + 1));
        from = i + 1;
    }
    None
}

proof fn lemma_char_place_skip(s: Seq<char>, c: char, from: int, i: int)
    requires
        0 <= from <= i <= s.len(),
    ensures
        char_place(s.skip(from), c, i - from) == char_place(s, c, i) - from,
    decreases s.len() - i,
{
    if i < s.len() && s[i] != c {
        lemma_char_place_skip(s, c, from, i + 1);
    }
}

/// The value of the guard's cookie in a header.
pub fn cookie_value(header: &str) -> (r: Option<String>)
    ensures
        opt_string(r) == cookie_named(header@, "hop_auth"@),
{
    find_cookie(header, COOKIE)
}

/// The guard lets a request through: it asks for nothing, or the cookie holds
/// its token.
pub open spec fn admits(token: Option<Seq<char>>, header: Option<Seq<char>>) -> bool {
    match token {
        None => true,
        Some(want) => match header {
            None => false,
            Some(h) => cookie_named(h, "hop_auth"@) == Some(want),
        },
    }
}

/// A request with this cookie header passes the guard.
pub fn is_authed(token: &Option<String>, cookie_header: Option<&str>) -> (r: bool)
    ensures
        r == admits(opt_string(*token), opt(cookie_header)),
{
    match token {
        None => true,
        Some(want) => match cookie_header {
            None => false,
            Some(h) => match cookie_value(h) {
                None => false,
                Some(got) => text_eq(got.as_str(), want.as_str()),
            },
        },
    }
}

/// The password opens the guard.
pub fn verify_password(token: &Option<String>, password: &str) -> (r: bool)
    ensures
        r == (opt_string(*token) == Some(hash_of(password@))),
{
    match token {
        None => false,
        Some(want) => text_eq(hash_password(password).as_str(), want.as_str()),
    }
}

/// The header that sets the cookie.
pub open spec fn cookie_header_of(token: Seq<char>, secure: bool) -> Seq<char> {
    let c = "hop_auth"@ + "="@ + token
        + "; Path=/; HttpOnly; SameSite=Lax; Max-Age=2592000"@;
    if secure {
        c + "; Secure"@
    } else {
        c
    }
}

/// The header that sets the guard's cookie, where it asks for one.
pub fn set_cookie_header(token: &Option<String>, secure: bool) -> (r: Option<String>)
    ensures
        opt_string(r) == (match opt_string(*token) {
            Some(t) => Some(cookie_header_of(t, secure)),
            None => None,
        }),
{
    match token {
        None => None,
        Some(t) => {
            let mut c: String = COOKIE.to_owned();
            c.append("=");
            c.append(t.as_str());
            c.append("; Path=/; HttpOnly; SameSite=Lax; Max-Age=2592000");
            if secure {
                c.append("; Secure");
            }
            Some(c)
        },
    }
}

const LOGIN_HEAD: &'static str = r#"<!doctype html>
<html>
<head>
  <meta charset="utf-8">
  <meta name="viewport" content="width=device-width,initial-scale=1">
  <title>"#;

const LOGIN_STYLE: &'static str = r#" — login</title>
  <style>
    body { margin:0; background:#11151c; color:#e8e4dc; font:16px system-ui,sans-serif;
           display:flex; min-height:100vh; align-items:center; justify-content:center; }
    form { background:#191e27; padding:28px 32px; border-radius:12px; width:min(360px,90vw);
            border:1px solid #303641; }
    h1 { font:italic 32px Georgia,serif; margin:0 0 8px; }
    p { color:#a9afb9; margin:0 0 18px; }
    .err { color:#ff9caa; }
    input, button { width:100%; box-sizing:border-box; padding:10px 12px; border-radius:6px;
                     font:inherit; }
    input { background:#11151c; color:#e8e4dc; border:1px solid #303641; margin-bottom:12px; }
    button { background:#f2b880; color:#111; border:0; cursor:pointer; font-weight:600; }
  </style>
</head>
<body>
  <form method="post" action="/login">
    <h1>"#;

const LOGIN_FORM: &'static str = r#"</h1>
    <p>password to enter.</p>
    "#;

const LOGIN_END: &'static str = r#"
    <input type="password" name="password" autofocus autocomplete="current-password">
    <button type="submit">enter</button>
  </form>
</body>
</html>"#;

/// The title of the login page.
pub open spec fn title_of(title: Option<Seq<char>>) -> Seq<char> {
    match not_empty(title) {
        Some(t) => t,
        None => "hop"@,
    }
}

/// The login page.
pub closed spec fn login_page(title: Seq<char>, error: Option<Seq<char>>) -> Seq<char> {
    let err = match error {
        Some(e) => r#"<p class="err">"#@ + e + "</p>"@,
        None => Seq::empty(),
    };
    LOGIN_HEAD@ + title + LOGIN_STYLE@ + title + LOGIN_FORM@ + err + LOGIN_END@
}

/// The login page, with the title that `HOP_LOGIN_TITLE` gives and an error if
/// there was one.
pub fn login_html(title: Option<&str>, error: Option<&str>) -> (r: String)
    ensures
        r@ == login_page(title_of(opt(title)), opt(error)),
{
    let mut t: String = "hop".to_owned();
    if let Some(s) = title {
        if !is_blank(s) {
            t = s.to_owned();
        }
    }
    let mut err: String = String::new();
    assert(err@ =~= Seq::<char>::empty());
    if let Some(e) = error {
        err = r#"<p class="err">"#.to_owned();
        err.append(e);
        err.append("</p>");
    }
    let mut page: String = LOGIN_HEAD.to_owned();
    page.append(t.as_str());
    page.append(LOGIN_STYLE);
    page.append(t.as_str());
    page.append(LOGIN_FORM);
    page.append(err.as_str());
    page.append(LOGIN_END);
    page
}

/// The value of a hexadecimal digit.
pub open spec fn hex_value(b: u8) -> Option<u8> {
    if 0x30 <= b <= 0x39 {
        Some((b - 0x30) as u8)
    } else if 0x41 <= b <= 0x46 {
        Some((b - 0x37) as u8)
    } else if 0x61 <= b <= 0x66 {
        Some((b - 0x57) as u8)
    } else {
        None
    }
}

/// The byte that stands percent-encoded at `i`.
pub open spec fn escaped_at(s: Seq<u8>, i: int) -> Option<u8> {
    if s[i] == 0x25 && i + 2 < s.len() {
        match (hex_value(s[i + 1]), hex_value(s[i + 2])) {
            (Some(a), Some(b)) => Some((a * 16 + b) as u8),
            _ => None,
        }
    } else {
        None
    }
}

/// The bytes that a form's bytes stand for, from `i` on: a plus is a space, and
/// `%` with two hexadecimal digits a byte.
pub open spec fn unescaped(s: Seq<u8>, i: int) -> Seq<u8>
    decreases s.len() - i,
{
    if i < 0 || i >= s.len() {
        Seq::empty()
    } else {
        match escaped_at(s, i) {
            Some(b) => seq![b] + unescaped(s, i + 3),
            None => seq![
                if s[i] == 0x2b {
                    0x20u8
                } else {
                    s[i]
                },
            ] + unescaped(s, i + 1),
        }
    }
}

/// The text of a form value.
pub open spec fn form_text(s: Seq<char>) -> Seq<char> {
    lossy(unescaped(encode_utf8(s), 0))
}

/// `t` is the text of the form value `s`: that of the bytes it stands for, where
/// they are UTF-8.
pub open spec fn form_says(t: Seq<char>, s: Seq<char>) -> bool {
    let b = unescaped(encode_utf8(s), 0);
    t == form_text(s) && (valid_utf8(b) ==> t == decode_utf8(b))
}

fn hex_of(b: u8) -> (r: Option<u8>)
    ensures
        r == hex_value(b),
        r matches Some(n) ==> n < 16,
{
    if 0x30 <= b && b <= 0x39 {
        Some(b - 0x30)
    } else if 0x41 <= b && b <= 0x46 {
        Some(b - 0x37)
    } else if 0x61 <= b && b <= 0x66 {
        Some(b - 0x57)
    } else {
        None
    }
}

fn escape_at(s: &[u8], i: usize) -> (r: Option<u8>)
    requires
        i < s@.len(),
    ensures
        r == escaped_at(s@, i as int),
        r is Some ==> i + 2 < s@.len(),
{
    if s[i] == 0x25 && s.len() - i > 2 {
        match (hex_of(s[i + 1]), hex_of(s[i + 2])) {
            (Some(a), Some(b)) => Some(a * 16 + b),
            _ => None,
        }
    } else {
        None
    }
}

/// The text of a form value.
pub fn form_decode(value: &str) -> (r: String)
    ensures
        form_says(r@, value@),
{
    let s = value.as_bytes();
    let mut out: Vec<u8> = Vec::new();
    let mut i: usize = 0;
    assert(out@ + unescaped(s@, 0) =~= unescaped(s@, 0));
    while i < s.len()
        invariant
            i <= s@.len(),
            out@ + unescaped(s@, i as int) == unescaped(s@, 0),
        decreases s@.len() - i,
    {
        let ghost before = out@;
        let ghost tail = unescaped(s@, i as int);
        match escape_at(s, i) {
            Some(b) => {
                out.push(b);
                assert(out@ + unescaped(s@, i + 3) =~= before + tail);
                i = i + 3;
            },
            None => {
                let b: u8 = if s[i] == 0x2b {
                    0x20
                } else {
                    s[i]
                };
                out.push(b);
                assert(out@ + unescaped(s@, i + 1) =~= before + tail);
                i = i + 1;
            },
        }
    }
    assert(out@ =~= unescaped(s@, 0));
    text_lossy(out.as_slice())
}

/// The password of one `name=value` pair, as the form has it.
pub open spec fn password_pair(pair: Seq<char>) -> Option<Seq<char>> {
    match split_once_of(pair, '=') {
        Some((k, v)) => if k == "password"@ {
            Some(v)
        } else {
            None
        },
        None => None,
    }
}

/// The password of a form's body, as the form has it: the first pair of that
/// name.
pub open spec fn password_field(s: Seq<char>) -> Option<Seq<char>>
    decreases s.len(),
{
    let i = char_place(s, '&', 0);
    let rest = s.skip(i + 1);
    match password_pair(s.take(i)) {
        Some(v) => Some(v),
        None => if 0 <= i && i < s.len() && rest.len() < s.len() {
            password_field(rest)
        } else {
            None
        },
    }
}

/// The password of a form's body.
pub open spec fn form_password(s: Seq<char>) -> Option<Seq<char>> {
    match password_field(s) {
        Some(v) => Some(form_text(v)),
        None => None,
    }
}

fn read_pair(pair: &Vec<char>) -> (r: Option<String>)
    ensures
        match (r, password_pair(pair@)) {
            (Some(t), Some(v)) => form_says(t@, v),
            (None, None) => true,
            _ => false,
        },
{
    let i: usize = find_char(pair, '=', 0);
    if i >= pair.len() {
        return None;
    }
    let k: Vec<char> = chars_between(pair, 0, i);
    let v: Vec<char> = chars_between(pair, i + 1, pair.len());
    proof {
        assert(k@ =~= pair@.take(i as int));
        assert(v@ =~= pair@.skip(i + 1));
    }
    if text_eq(string_of(k.as_slice()).as_str(), "password") {
        Some(form_decode(string_of(v.as_slice()).as_str()))
    } else {
        None
    }
}

/// The password that a login form sends.
pub fn parse_form_password(body: &str) -> (r: Option<String>)
    ensures
        opt_string(r) == form_password(body@),
        match (r, password_field(body@)) {
            (Some(t), Some(v)) => form_says(t@, v),
            (None, None) => true,
            _ => false,
        },
{
    let s: Vec<char> = chars_of(body);
    let mut from: usize = 0;
    assert(s@.skip(0) =~= s@);
    while from <= s.len()
        invariant
            from <= s@.len(),
            s@ == body@,
            password_field(body@) == password_field(s@.skip(from as int)),
        decreases s@.len() - from,
    {
        let ghost rest = s@.skip(from as int);
        let i: usize = find_char(&s, '&', from);
        proof {
            lemma_char_place_skip(s@, '&', from as int, from as int);
            assert(rest.take(i - from) =~= s@.subrange(from as int, i as int));
        }
        let pair: Vec<char> = chars_between(&s, from, i);
        match read_pair(&pair) {
            Some(v) => {
                return Some(v);
            },
            None => {
                if i >= s.len() {
                    return None;
                }
            },
        }
        assert(rest.skip(i - from + 1) =~= s@.skip(i + 1));
        from = i + 1;
    }
    None
}

/// The first `c` from `i` on is at `k`, or there is none before the end.
proof fn lemma_char_first(s: Seq<char>, c: char, i: int, k: int)
    requires
        0 <= i <= k <= s.len(),
        forall|j: int| i <= j < k ==> s[j] != c,
        k < s.len() ==> s[k] == c,
    ensures
        char_place(s, c, i) == k,
    decreases k - i,
{
    if i < k {
        lemma_char_first(s, c, i + 1, k);
    }
}

/// A cookie at the front of a header is found there, whatever follows it.
proof fn lemma_cookie_found(token: Seq<char>, rest: Seq<char>)
    requires
        cookie_fit(token),
        rest.len() > 0 ==> rest[0] == ';',
    ensures
        cookie_named("hop_auth="@ + token + rest, "hop_auth"@) == Some(token),
{
    reveal_strlit("hop_auth=");
    reveal_strlit("hop_auth");
    let part = "hop_auth="@ + token;
    let s = part + rest;
    let k = part.len() as int;
    assert forall|j: int| 0 <= j < k implies s[j] != ';' by {
        if j >= 9 {
            assert(token.contains(token[j - 9]));
            assert(s[j] == token[j - 9]);
        }
    }
    lemma_char_first(s, ';', 0, k);
    assert(s.take(k) =~= part);
    assert(part[0] == 'h');
    assert(part[k - 1] == token.last());
    assert(trim_start(part, 0) == 0);
    assert(trim_end(part, 0, k) == k);
    assert(trimmed(part) =~= part);
    lemma_char_first(part, '=', 0, 8);
    assert(part.take(8) =~= "hop_auth"@);
    assert(part.skip(9) =~= token);
}

/// A request that sends the guard's token back is let through, whether it sends
/// the cookie alone or all of the header that set it. Every token that a
/// password gives is fit to be one.
pub proof fn law_cookie_admits(token: Seq<char>, secure: bool)
    requires
        cookie_fit(token),
    ensures
        admits(Some(token), Some("hop_auth="@ + token)),
        admits(Some(token), Some(cookie_header_of(token, secure))),
{
    reveal_strlit("hop_auth");
    reveal_strlit("=");
    reveal_strlit("hop_auth=");
    reveal_strlit("; Path=/; HttpOnly; SameSite=Lax; Max-Age=2592000");
    reveal_strlit("; Secure");
    let none = Seq::<char>::empty();
    let attributes = "; Path=/; HttpOnly; SameSite=Lax; Max-Age=2592000"@;
    let rest = if secure {
        attributes + "; Secure"@
    } else {
        attributes
    };
    lemma_cookie_found(token, none);
    assert("hop_auth="@ + token + none =~= "hop_auth="@ + token);
    lemma_cookie_found(token, rest);
    assert("hop_auth"@ + "="@ =~= "hop_auth="@);
    assert(cookie_header_of(token, secure) =~= "hop_auth="@ + token + rest);
}

} // verus!
