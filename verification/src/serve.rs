//! What the server decides about requests, sessions and packets.

use crate::auth::{
    admits, char_place, chars_between, cookie_named, find_char, find_cookie, form_password, hash_of,
    is_authed, opt, opt_string, parse_form_password, verify_password,
};
use crate::data::{cbor_bytes, cbor_depth, encode, pairs_v, plain, reads_as, Data, DataV};
use crate::flow::{with_job, JobV, VmV};
use crate::interp::set_cell;
use crate::machine::with_cell;
use crate::modules::{fields_data, no_fields, push_field};
use crate::rt::{keeps, Vm};
use crate::text::{chars_of, dec, dec_u64, string_of, text_eq};
use crate::value::{
    entry_place, entry_put, field_of, field_place, has_entry, key_rel, map_at, str_at, text_of,
    Cell, CellV, Heap, Rel, Value,
};
use crate::wire::{decode_value, decoded};
use vstd::prelude::*;
use vstd::string::*;

verus! {

/// The path of a URL, without what is asked of it.
pub open spec fn path_of_url(url: Seq<char>) -> Seq<char> {
    url.take(char_place(url, '?', 0))
}

/// The path of a URL, without what is asked of it.
pub fn request_path(url: &str) -> (r: String)
    ensures
        r@ == path_of_url(url@),
{
    let s: Vec<char> = chars_of(url);
    let i: usize = find_char(&s, '?', 0);
    let p: Vec<char> = chars_between(&s, 0, i);
    assert(p@ =~= url@.take(i as int));
    string_of(p.as_slice())
}

/// The name of session `n`: a letter, or a number once they are used up.
pub open spec fn session_name_of(n: usize) -> Seq<char> {
    if n < 26 {
        seq![((0x41 + n) as u8) as char]
    } else {
        "S"@ + dec(n as nat)
    }
}

/// The name of session `n`.
pub fn session_name(n: usize) -> (r: String)
    ensures
        r@ == session_name_of(n),
{
    if n < 26 {
        let b: u8 = (0x41 + n) as u8;
        let mut s: String = String::new();
        s.push(b as char);
        assert(s@ =~= seq![b as char]);
        s
    } else {
        let mut s: String = "S".to_owned();
        s.append(dec_u64(n as u64).as_str());
        s
    }
}

/// The user that a cookie header names.
pub fn hop_user_cookie(cookie_header: &str) -> (r: Option<String>)
    ensures
        opt_string(r) == cookie_named(cookie_header@, "hop_user"@),
{
    find_cookie(cookie_header, "hop_user")
}

/// What becomes of a request at the door.
#[derive(Clone, Copy, Debug, PartialEq, Eq, Structural)]
pub enum Admission {
    /// It is served.
    Pass,
    /// It sent the password: it gets the cookie, and is sent on.
    Enter,
    /// It sent a wrong password: it gets the login page with an error.
    Wrong,
    /// It gets the login page.
    Ask,
}

/// What becomes of a request at the door.
pub open spec fn admission_of(
    token: Option<Seq<char>>,
    cookie: Option<Seq<char>>,
    post: bool,
    path: Seq<char>,
    body: Seq<char>,
) -> Admission {
    if admits(token, cookie) {
        Admission::Pass
    } else if post && path == "/login"@ {
        let password = match form_password(body) {
            Some(p) => p,
            None => Seq::empty(),
        };
        if token == Some(hash_of(password)) {
            Admission::Enter
        } else {
            Admission::Wrong
        }
    } else {
        Admission::Ask
    }
}

/// What becomes of a request at the door.
pub fn admission(token: &Option<String>, cookie: Option<&str>, post: bool, path: &str, body: &str) -> (r:
    Admission)
    ensures
        r == admission_of(opt_string(*token), opt(cookie), post, path@, body@),
{
    if is_authed(token, cookie) {
        return Admission::Pass;
    }
    if post && text_eq(path, "/login") {
        let password: String = match parse_form_password(body) {
            Some(p) => p,
            None => {
                let none: String = String::new();
                assert(none@ =~= Seq::<char>::empty());
                none
            },
        };
        if verify_password(token, password.as_str()) {
            Admission::Enter
        } else {
            Admission::Wrong
        }
    } else {
        Admission::Ask
    }
}

/// What is served under a path.
#[derive(Clone, Copy, Debug, PartialEq, Eq, Structural)]
pub enum Page {
    Shell,
    Glue,
    Idiomorph,
    Config,
    App,
    Reset,
    Boot,
    /// A file of the package, or nothing.
    Pkg,
}

/// What is served under a path.
pub open spec fn page_of(path: Seq<char>) -> Page {
    if path == "/"@ || path == "/index.html"@ {
        Page::Shell
    } else if path == "/glue.js"@ {
        Page::Glue
    } else if path == "/idiomorph.esm.js"@ {
        Page::Idiomorph
    } else if path == "/config.json"@ {
        Page::Config
    } else if path == "/app.hop"@ {
        Page::App
    } else if path == "/reset"@ {
        Page::Reset
    } else if path == "/boot.css"@ {
        Page::Boot
    } else {
        Page::Pkg
    }
}

/// What is served under a path.
pub fn page(path: &str) -> (r: Page)
    ensures
        r == page_of(path@),
{
    if text_eq(path, "/") || text_eq(path, "/index.html") {
        Page::Shell
    } else if text_eq(path, "/glue.js") {
        Page::Glue
    } else if text_eq(path, "/idiomorph.esm.js") {
        Page::Idiomorph
    } else if text_eq(path, "/config.json") {
        Page::Config
    } else if text_eq(path, "/app.hop") {
        Page::App
    } else if text_eq(path, "/reset") {
        Page::Reset
    } else if text_eq(path, "/boot.css") {
        Page::Boot
    } else {
        Page::Pkg
    }
}

/// The type of what is served as a page; of a file of the package its name says
/// it.
pub open spec fn page_type_of(p: Page) -> Option<Seq<char>> {
    match p {
        Page::Shell => Some("text/html; charset=utf-8"@),
        Page::Glue => Some("text/javascript"@),
        Page::Idiomorph => Some("text/javascript"@),
        Page::Config => Some("application/json"@),
        Page::App => Some("text/plain; charset=utf-8"@),
        Page::Reset => Some("text/plain; charset=utf-8"@),
        Page::Boot => Some("text/css"@),
        Page::Pkg => None,
    }
}

/// The type of what is served as a page.
pub fn page_type(p: Page) -> (r: Option<&'static str>)
    ensures
        opt(r) == page_type_of(p),
{
    match p {
        Page::Shell => Some("text/html; charset=utf-8"),
        Page::Glue => Some("text/javascript"),
        Page::Idiomorph => Some("text/javascript"),
        Page::Config => Some("application/json"),
        Page::App => Some("text/plain; charset=utf-8"),
        Page::Reset => Some("text/plain; charset=utf-8"),
        Page::Boot => Some("text/css"),
        Page::Pkg => None,
    }
}

/// Whether a request gets a new user: it asks for the shell, and no cookie names
/// its user.
pub fn mints_user(p: Page, cookie: Option<&str>) -> (r: bool)
    ensures
        r == (p == Page::Shell && match cookie {
            Some(c) => cookie_named(c@, "hop_user"@) is None,
            None => true,
        }),
{
    if p != Page::Shell {
        return false;
    }
    match cookie {
        Some(c) => hop_user_cookie(c).is_none(),
        None => true,
    }
}

/// The header that gives a browser its user.
pub fn user_cookie(user: &str) -> (r: String)
    ensures
        r@ == "hop_user="@ + user@ + "; Path=/; Max-Age=31536000; SameSite=Lax"@,
{
    let mut s: String = "hop_user=".to_owned();
    s.append(user);
    s.append("; Path=/; Max-Age=31536000; SameSite=Lax");
    s
}

/// The text ends with `end`.
pub open spec fn ends_with(s: Seq<char>, end: Seq<char>) -> bool {
    end.len() <= s.len() && s.skip(s.len() - end.len()) == end
}

fn has_end(s: &str, end: &str) -> (r: bool)
    ensures
        r == ends_with(s@, end@),
{
    let a: Vec<char> = chars_of(s);
    let b: Vec<char> = chars_of(end);
    if b.len() > a.len() {
        return false;
    }
    let tail: Vec<char> = chars_between(&a, a.len() - b.len(), a.len());
    assert(tail@ =~= s@.skip(s@.len() - end@.len()));
    text_eq(string_of(tail.as_slice()).as_str(), end)
}

/// The type of a file of the package.
pub open spec fn file_type_of(name: Seq<char>) -> Seq<char> {
    if ends_with(name, ".wasm"@) {
        "application/wasm"@
    } else if ends_with(name, ".js"@) {
        "text/javascript"@
    } else {
        "application/octet-stream"@
    }
}

/// The type of a file of the package.
pub fn file_type(name: &str) -> (r: &'static str)
    ensures
        r@ == file_type_of(name@),
{
    if has_end(name, ".wasm") {
        "application/wasm"
    } else if has_end(name, ".js") {
        "text/javascript"
    } else {
        "application/octet-stream"
    }
}

/// The configuration that a browser gets.
pub open spec fn config_of(ws_port: u16, ws_path: Seq<char>) -> Seq<char> {
    "{\"wsPort\":"@ + dec(ws_port as nat) + ",\"wsPath\":\""@ + ws_path + "\"}"@
}

/// The configuration that a browser gets.
pub fn config_json(ws_port: u16, ws_path: &str) -> (r: String)
    ensures
        r@ == config_of(ws_port, ws_path@),
{
    let mut s: String = "{\"wsPort\":".to_owned();
    s.append(dec_u64(ws_port as u64).as_str());
    s.append(",\"wsPath\":\"");
    s.append(ws_path);
    s.append("\"}");
    s
}

/// A session: its name, and its user.
#[derive(Debug)]
pub struct Session {
    pub sid: String,
    pub user: String,
}

/// The model of a session.
pub struct SessionV {
    pub sid: Seq<char>,
    pub user: Seq<char>,
}

impl View for Session {
    type V = SessionV;

    open spec fn view(&self) -> SessionV {
        SessionV { sid: self.sid@, user: self.user@ }
    }
}

/// The sessions of a list.
pub open spec fn sessions_v(s: Seq<Session>) -> Seq<SessionV> {
    s.map_values(|x: Session| x@)
}

/// A packet to `to` is for the session: it is for all browsers, for all tabs of
/// its user, or for it.
pub open spec fn is_for(s: SessionV, to: Seq<char>) -> bool {
    if to == "browsers"@ {
        true
    } else if to.len() >= 5 && to.take(5) == "user:"@ {
        s.user == to.skip(5)
    } else {
        s.sid == to
    }
}

/// The places of the first `n` sessions that a packet to `to` is for.
pub open spec fn routed(ss: Seq<SessionV>, to: Seq<char>, n: int) -> Seq<usize>
    decreases n,
{
    if n <= 0 || n > ss.len() {
        Seq::empty()
    } else if is_for(ss[n - 1], to) {
        routed(ss, to, n - 1).push((n - 1) as usize)
    } else {
        routed(ss, to, n - 1)
    }
}

/// The places of the sessions that a packet to `to` is for. One that is for
/// nobody is dropped.
pub fn route(sessions: &Vec<Session>, to: &str) -> (r: Vec<usize>)
    ensures
        r@ == routed(sessions_v(sessions@), to@, sessions@.len() as int),
{
    let ghost ss = sessions_v(sessions@);
    let t: Vec<char> = chars_of(to);
    let all: bool = text_eq(to, "browsers");
    let mut of_user: bool = false;
    let mut user: String = String::new();
    if t.len() >= 5 {
        let head: Vec<char> = chars_between(&t, 0, 5);
        assert(head@ =~= to@.take(5));
        if text_eq(string_of(head.as_slice()).as_str(), "user:") {
            let tail: Vec<char> = chars_between(&t, 5, t.len());
            assert(tail@ =~= to@.skip(5));
            of_user = true;
            user = string_of(tail.as_slice());
        }
    }
    let mut out: Vec<usize> = Vec::new();
    let mut i: usize = 0;
    while i < sessions.len()
        invariant
            i <= sessions@.len(),
            ss == sessions_v(sessions@),
            all == (to@ == "browsers"@),
            of_user == (to@.len() >= 5 && to@.take(5) == "user:"@),
            of_user ==> user@ == to@.skip(5),
            out@ == routed(ss, to@, i as int),
        decreases sessions@.len() - i,
    {
        assert(ss[i as int] == sessions@[i as int]@);
        let mine: bool = if all {
            true
        } else if of_user {
            text_eq(sessions[i].user.as_str(), user.as_str())
        } else {
            text_eq(sessions[i].sid.as_str(), to)
        };
        if mine {
            out.push(i);
        }
        i = i + 1;
    }
    out
}

/// A packet is a call or a cast.
pub open spec fn is_call(h: Seq<CellV>, pkt: Value) -> bool {
    let k = text_of(h, field_of(h, pkt, "kind"@));
    k == Some("call"@) || k == Some("cast"@)
}

/// The cells, with those of the texts that say who sent a packet.
pub open spec fn identity_cells(h: Seq<CellV>, sid: Seq<char>, user: Seq<char>) -> Seq<CellV> {
    h.push(CellV::Str(sid)).push(CellV::Str(user)).push(CellV::Str("origin"@)).push(
        CellV::Str("reply_to"@),
    ).push(CellV::Str("user"@))
}

/// The text in the cell that is `k` beyond the first `n`.
pub open spec fn beyond(n: nat, k: int) -> Value {
    Value::Str((n + k) as usize)
}

/// The entries `m`, with what is known of the sender; the texts are in the cells
/// from `n` on.
pub open spec fn identified(a: Seq<CellV>, n: nat, m: Seq<(Value, Value)>) -> Seq<(Value, Value)> {
    let o = entry_put(a, m, beyond(n, 2), beyond(n, 0));
    let r = entry_put(a, o, beyond(n, 3), beyond(n, 0));
    entry_put(a, r, beyond(n, 4), beyond(n, 1))
}

/// The cells once the packet is stamped: who sent a call or a cast is what is
/// known of the socket that it came from, whatever the packet claims.
pub open spec fn stamped(h: Seq<CellV>, pkt: Value, sid: Seq<char>, user: Seq<char>) -> Seq<CellV> {
    match pkt {
        Value::Dict(i) => if is_call(h, pkt) {
            let a = identity_cells(h, sid, user);
            with_cell(a, i, CellV::Dict(identified(a, h.len(), map_at(h, i))))
        } else {
            h
        },
        _ => h,
    }
}

/// Stamps a packet with what is known of its sender.
pub fn stamp(heap: &mut Heap, pkt: Value, sid: &str, user: &str)
    ensures
        final(heap)@ == stamped(old(heap)@, pkt, sid@, user@),
{
    let i: usize = match pkt {
        Value::Dict(i) => i,
        _ => {
            return ;
        },
    };
    let kind: Value = heap.get_field(pkt, "kind");
    let calls: bool = match heap.as_str(kind) {
        Some(k) => text_eq(k, "call") || text_eq(k, "cast"),
        None => false,
    };
    if !calls {
        return ;
    }
    let mut m: Vec<(Value, Value)> = heap.entries(i);
    let from: Value = heap.str(sid);
    let whose: Value = heap.str(user);
    let origin_key: Value = heap.str("origin");
    let reply_key: Value = heap.str("reply_to");
    let user_key: Value = heap.str("user");
    heap.entry_put(&mut m, origin_key, from);
    heap.entry_put(&mut m, reply_key, from);
    heap.entry_put(&mut m, user_key, whose);
    set_cell(heap, i, Cell::Dict(m));
}

/// The machine once a packet came in from a session, and why it did not.
pub open spec fn entered(s: VmV, bytes: Seq<u8>, sid: Seq<char>, user: Seq<char>) -> (
    VmV,
    Result<(), Seq<char>>,
) {
    let (h, r) = decoded(s.h, bytes);
    match r {
        Ok(pkt) => (
            with_job(VmV { h: stamped(h, pkt, sid, user), ..s }, JobV::Packet(pkt)),
            Ok(()),
        ),
        Err(m) => (VmV { h, ..s }, Err(m)),
    }
}

/// Takes in the bytes of a packet from a session.
pub fn enter(vm: &mut Vm, bytes: &[u8], sid: &str, user: &str) -> (r: Result<(), String>)
    requires
        old(vm).wf(),
    ensures
        keeps(*old(vm), *final(vm)),
        final(vm)@ == entered(old(vm)@, bytes@, sid@, user@).0,
        match (r, entered(old(vm)@, bytes@, sid@, user@).1) {
            (Ok(_), Ok(_)) => true,
            (Err(x), Err(y)) => x@ == y,
            _ => false,
        },
{
    match decode_value(&mut vm.machine.heap, bytes) {
        Ok(pkt) => {
            stamp(&mut vm.machine.heap, pkt, sid, user);
            vm.receive(pkt);
            Ok(())
        },
        Err(m) => Err(m),
    }
}

/// The cells `a` and `b` hold the same texts.
pub open spec fn same_texts(a: Seq<CellV>, b: Seq<CellV>) -> bool {
    forall|i: usize| #[trigger] str_at(a, i) == str_at(b, i)
}

proof fn lemma_field_place_texts(
    a: Seq<CellV>,
    b: Seq<CellV>,
    m: Seq<(Value, Value)>,
    name: Seq<char>,
    i: int,
)
    requires
        same_texts(a, b),
        0 <= i <= m.len(),
    ensures
        field_place(a, m, name, i) == field_place(b, m, name, i),
    decreases m.len() - i,
{
    if i < m.len() {
        if let Value::Str(s) = m[i].0 {
            assert(str_at(a, s) == str_at(b, s));
        }
        lemma_field_place_texts(a, b, m, name, i + 1);
    }
}

/// The value for the text `name` in `m`.
pub open spec fn named(h: Seq<CellV>, m: Seq<(Value, Value)>, name: Seq<char>) -> Value {
    let j = field_place(h, m, name, 0);
    if j < m.len() {
        m[j].1
    } else {
        Value::Nil
    }
}

proof fn lemma_entry_place(h: Seq<CellV>, m: Seq<(Value, Value)>, k: Value, i: int)
    requires
        0 <= i <= m.len(),
    ensures
        i <= entry_place(h, m, k, i) <= m.len(),
        forall|j: int|
            i <= j < entry_place(h, m, k, i) ==> key_rel(h, #[trigger] m[j].0, k) == Rel::Less,
    decreases m.len() - i,
{
    if i < m.len() && key_rel(h, m[i].0, k) == Rel::Less {
        lemma_entry_place(h, m, k, i + 1);
    }
}

/// The key is the text `name`.
pub open spec fn key_is(h: Seq<CellV>, k: Value, name: Seq<char>) -> bool {
    text_of(h, k) == Some(name)
}

proof fn lemma_field_skips(h: Seq<CellV>, m: Seq<(Value, Value)>, name: Seq<char>, i: int, n: int)
    requires
        0 <= i <= n <= m.len(),
        forall|j: int| i <= j < n ==> !key_is(h, #[trigger] m[j].0, name),
    ensures
        field_place(h, m, name, i) == field_place(h, m, name, n),
    decreases n - i,
{
    if i < n {
        assert(!key_is(h, m[i].0, name));
        lemma_field_skips(h, m, name, i + 1, n);
    }
}

proof fn lemma_put_named(h: Seq<CellV>, m: Seq<(Value, Value)>, c: usize, v: Value)
    ensures
        named(h, entry_put(h, m, Value::Str(c), v), str_at(h, c)) == v,
{
    let k = Value::Str(c);
    let name = str_at(h, c);
    let i = entry_place(h, m, k, 0);
    lemma_entry_place(h, m, k, 0);
    let n = entry_put(h, m, k, v);
    assert forall|j: int| 0 <= j < i implies !key_is(h, #[trigger] n[j].0, name) by {
        assert(n[j] == m[j]);
        assert(key_rel(h, m[j].0, k) == Rel::Less);
    }
    lemma_field_skips(h, n, name, 0, i);
}

proof fn lemma_same_keys(
    h: Seq<CellV>,
    m: Seq<(Value, Value)>,
    n: Seq<(Value, Value)>,
    name: Seq<char>,
    i: int,
)
    requires
        m.len() == n.len(),
        forall|j: int| 0 <= j < m.len() ==> m[j].0 == #[trigger] n[j].0,
        0 <= i <= m.len(),
    ensures
        field_place(h, m, name, i) == field_place(h, n, name, i),
    decreases m.len() - i,
{
    if i < m.len() {
        assert(m[i].0 == n[i].0);
        lemma_same_keys(h, m, n, name, i + 1);
    }
}

proof fn lemma_insert_named(
    h: Seq<CellV>,
    m: Seq<(Value, Value)>,
    at: int,
    e: (Value, Value),
    name: Seq<char>,
    i: int,
)
    requires
        0 <= i <= m.len(),
        0 <= at <= m.len(),
        !key_is(h, e.0, name),
    ensures
        field_place(h, m.insert(at, e), name, if i < at { i } else { i + 1 }) == ({
            let j = field_place(h, m, name, i);
            if j < at {
                j
            } else {
                j + 1
            }
        }),
    decreases m.len() - i,
{
    let n = m.insert(at, e);
    if i < m.len() {
        if i < at {
            assert(n[i] == m[i]);
        } else {
            assert(n[i + 1] == m[i]);
        }
        lemma_insert_named(h, m, at, e, name, i + 1);
        if i + 1 == at {
            assert(n[at] == e);
            assert(field_place(h, n, name, at) == field_place(h, n, name, at + 1));
        }
    } else if i < at {
    }
}

proof fn lemma_place_in(h: Seq<CellV>, m: Seq<(Value, Value)>, name: Seq<char>, i: int)
    requires
        0 <= i <= m.len(),
    ensures
        i <= field_place(h, m, name, i) <= m.len(),
        field_place(h, m, name, i) < m.len() ==> key_is(h, m[field_place(h, m, name, i)].0, name),
    decreases m.len() - i,
{
    if i < m.len() {
        lemma_place_in(h, m, name, i + 1);
    }
}

proof fn lemma_put_others(h: Seq<CellV>, m: Seq<(Value, Value)>, c: usize, v: Value, name: Seq<char>)
    requires
        name != str_at(h, c),
    ensures
        named(h, entry_put(h, m, Value::Str(c), v), name) == named(h, m, name),
{
    let k = Value::Str(c);
    let i = entry_place(h, m, k, 0);
    lemma_entry_place(h, m, k, 0);
    lemma_place_in(h, m, name, 0);
    let n = entry_put(h, m, k, v);
    if has_entry(h, m, k) {
        lemma_same_keys(h, m, n, name, 0);
        assert(!key_is(h, m[i].0, name));
    } else {
        lemma_insert_named(h, m, i, (k, v), name, 0);
        if i == 0 {
            assert(n[0] == (k, v));
            assert(field_place(h, n, name, 0) == field_place(h, n, name, 1));
        }
    }
}

/// The cell that a key names is there.
pub open spec fn key_held(h: Seq<CellV>, k: Value) -> bool {
    match k {
        Value::Str(c) => c < h.len(),
        _ => true,
    }
}

/// Identity rides the connection: a call or a cast that has come in says that it
/// is from the session and the user of its socket, whatever it claimed.
pub proof fn law_identity_is_not_claimed(h: Seq<CellV>, i: usize, sid: Seq<char>, user: Seq<char>)
    requires
        i < h.len(),
        h.len() + 5 <= usize::MAX,
        h[i as int] is Dict,
        is_call(h, Value::Dict(i)),
    ensures
        ({
            let pkt = Value::Dict(i);
            let g = stamped(h, pkt, sid, user);
            &&& text_of(g, field_of(g, pkt, "origin"@)) == Some(sid)
            &&& text_of(g, field_of(g, pkt, "reply_to"@)) == Some(sid)
            &&& text_of(g, field_of(g, pkt, "user"@)) == Some(user)
        }),
{
    reveal_strlit("origin");
    reveal_strlit("reply_to");
    reveal_strlit("user");
    assert("origin"@[0] == 'o' && "reply_to"@[0] == 'r' && "user"@[0] == 'u');
    let pkt = Value::Dict(i);
    let a = identity_cells(h, sid, user);
    let n = h.len();
    let m = map_at(h, i);
    let o = entry_put(a, m, beyond(n, 2), beyond(n, 0));
    let r = entry_put(a, o, beyond(n, 3), beyond(n, 0));
    let u = entry_put(a, r, beyond(n, 4), beyond(n, 1));
    let g = stamped(h, pkt, sid, user);
    assert(a[i as int] == h[i as int]);
    assert(same_texts(a, g));
    assert(str_at(a, (n + 2) as usize) == "origin"@);
    assert(str_at(a, (n + 3) as usize) == "reply_to"@);
    assert(str_at(a, (n + 4) as usize) == "user"@);
    assert(str_at(a, n as usize) == sid);
    assert(str_at(a, (n + 1) as usize) == user);
    lemma_put_named(a, m, (n + 2) as usize, beyond(n, 0));
    lemma_put_others(a, o, (n + 3) as usize, beyond(n, 0), "origin"@);
    lemma_put_others(a, r, (n + 4) as usize, beyond(n, 1), "origin"@);
    lemma_put_named(a, o, (n + 3) as usize, beyond(n, 0));
    lemma_put_others(a, r, (n + 4) as usize, beyond(n, 1), "reply_to"@);
    lemma_put_named(a, r, (n + 4) as usize, beyond(n, 1));
    lemma_field_place_texts(a, g, u, "origin"@, 0);
    lemma_field_place_texts(a, g, u, "reply_to"@, 0);
    lemma_field_place_texts(a, g, u, "user"@, 0);
    assert(map_at(g, i) == u);
}

/// Stamping a packet leaves its other fields as they are.
pub proof fn law_stamp_keeps_the_rest(
    h: Seq<CellV>,
    i: usize,
    sid: Seq<char>,
    user: Seq<char>,
    name: Seq<char>,
)
    requires
        i < h.len(),
        h.len() + 5 <= usize::MAX,
        h[i as int] is Dict,
        forall|j: int| 0 <= j < map_at(h, i).len() ==> key_held(h, #[trigger] map_at(h, i)[j].0),
        name != "origin"@,
        name != "reply_to"@,
        name != "user"@,
    ensures
        ({
            let pkt = Value::Dict(i);
            field_of(stamped(h, pkt, sid, user), pkt, name) == field_of(h, pkt, name)
        }),
{
    let pkt = Value::Dict(i);
    if is_call(h, pkt) {
        let a = identity_cells(h, sid, user);
        let n = h.len();
        let m = map_at(h, i);
        let o = entry_put(a, m, beyond(n, 2), beyond(n, 0));
        let r = entry_put(a, o, beyond(n, 3), beyond(n, 0));
        let u = entry_put(a, r, beyond(n, 4), beyond(n, 1));
        let g = stamped(h, pkt, sid, user);
        assert(a[i as int] == h[i as int]);
        assert(same_texts(a, g));
        assert(str_at(a, (n + 2) as usize) == "origin"@);
        assert(str_at(a, (n + 3) as usize) == "reply_to"@);
        assert(str_at(a, (n + 4) as usize) == "user"@);
        lemma_put_others(a, m, (n + 2) as usize, beyond(n, 0), name);
        lemma_put_others(a, o, (n + 3) as usize, beyond(n, 0), name);
        lemma_put_others(a, r, (n + 4) as usize, beyond(n, 1), name);
        lemma_field_place_texts(a, g, u, name, 0);
        lemma_grown(h, a, m, name, 0);
        assert(map_at(g, i) == u);
    }
}

proof fn lemma_grown(h: Seq<CellV>, a: Seq<CellV>, m: Seq<(Value, Value)>, name: Seq<char>, i: int)
    requires
        0 <= i <= m.len(),
        h.len() <= a.len(),
        forall|j: int| 0 <= j < h.len() ==> a[j] == h[j],
        forall|j: int| 0 <= j < m.len() ==> key_held(h, #[trigger] m[j].0),
    ensures
        field_place(h, m, name, i) == field_place(a, m, name, i),
    decreases m.len() - i,
{
    if i < m.len() {
        if let Value::Str(s) = m[i].0 {
            assert(key_held(h, m[i].0));
            assert(a[s as int] == h[s as int]);
        }
        lemma_grown(h, a, m, name, i + 1);
    }
}

/// What a session is told when it connects.
pub open spec fn hello_of(sid: Seq<char>, user: Seq<char>) -> DataV {
    DataV::Dict(
        seq![
            (DataV::Text("kind"@), DataV::Text("hello"@)),
            (DataV::Text("session"@), DataV::Text(sid)),
            (DataV::Text("user"@), DataV::Text(user)),
        ],
    )
}

/// What a session is told when it connects.
pub fn hello(sid: &str, user: &str) -> (r: Data)
    ensures
        r@ == hello_of(sid@, user@),
{
    let mut m: Vec<(Data, Data)> = no_fields();
    push_field(&mut m, "kind", Data::Text("hello".to_owned()));
    push_field(&mut m, "session", Data::Text(sid.to_owned()));
    push_field(&mut m, "user", Data::Text(user.to_owned()));
    assert(pairs_v(m) =~= hello_of(sid@, user@)->Dict_0);
    fields_data(m)
}

/// The frame that carries data: its bytes.
pub fn frame(d: &Data) -> (r: Vec<u8>)
    ensures
        r@ == cbor_bytes(d@),
        plain(d@, cbor_depth()) ==> reads_as(r@, d@),
{
    encode(d)
}

} // verus!
