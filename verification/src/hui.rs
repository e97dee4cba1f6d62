//! Interfaces as data: nodes are rendered to HTML, and the functions among
//! their attributes become handlers that the page calls back by id.

use crate::float::{FactV, FloatTable};
use crate::text::{chars_of, dec_i64, dec_int, text_eq};
use crate::value::{
    array_at, coerced, kind_of, map_at, same_text, str_at, too_deep, CellV, Heap, Try, TryV, Value,
};
use vstd::prelude::*;
use vstd::string::*;

verus! {

/// The text of a character in HTML.
pub open spec fn esc_char(c: char) -> Seq<char> {
    if c == '&' {
        "&amp;"@
    } else if c == '<' {
        "&lt;"@
    } else if c == '>' {
        "&gt;"@
    } else if c == '"' {
        "&quot;"@
    } else {
        seq![c]
    }
}

/// The first `n` characters of `s` in HTML.
pub open spec fn escaped(s: Seq<char>, n: int) -> Seq<char>
    decreases n,
{
    if n <= 0 || n > s.len() {
        Seq::empty()
    } else {
        escaped(s, n - 1) + esc_char(s[n - 1])
    }
}

/// `s` in HTML.
pub open spec fn esc_of(s: Seq<char>) -> Seq<char> {
    escaped(s, s.len() as int)
}

/// `s` in HTML: nothing in it is read as markup.
pub fn esc(s: &str) -> (r: String)
    ensures
        r@ == esc_of(s@),
{
    let cs: Vec<char> = chars_of(s);
    let mut out: String = String::new();
    let mut i: usize = 0;
    assert(out@ =~= Seq::<char>::empty());
    while i < cs.len()
        invariant
            i <= cs@.len(),
            cs@ == s@,
            out@ == escaped(s@, i as int),
        decreases cs@.len() - i,
    {
        let c: char = cs[i];
        if c == '&' {
            out.append("&amp;");
        } else if c == '<' {
            out.append("&lt;");
        } else if c == '>' {
            out.append("&gt;");
        } else if c == '"' {
            out.append("&quot;");
        } else {
            let ghost before = out@;
            out.push(c);
            assert(out@ =~= before + seq![c]);
        }
        i = i + 1;
    }
    out
}

/// A handler: its id, the root that it was rendered for, and the function.
pub struct HandlerV {
    pub id: i64,
    pub root: Seq<char>,
    pub callee: Value,
}

/// The handlers of a page.
pub struct HuiV {
    pub handlers: Seq<HandlerV>,
    pub seq: i64,
}

/// The handlers with one more, under the next id.
pub open spec fn registered(st: HuiV, root: Seq<char>, callee: Value) -> HuiV {
    let id = (st.seq + 1) as i64;
    HuiV { handlers: st.handlers.push(HandlerV { id, root, callee }), seq: id }
}

/// The first `n` handlers without those of `root`.
pub open spec fn handlers_without(hs: Seq<HandlerV>, root: Seq<char>, n: int) -> Seq<HandlerV>
    decreases n,
{
    if n <= 0 || n > hs.len() {
        Seq::empty()
    } else if hs[n - 1].root == root {
        handlers_without(hs, root, n - 1)
    } else {
        handlers_without(hs, root, n - 1).push(hs[n - 1])
    }
}

/// The handlers without those of `root`.
pub open spec fn released(st: HuiV, root: Seq<char>) -> HuiV {
    HuiV {
        handlers: handlers_without(st.handlers, root, st.handlers.len() as int),
        seq: st.seq,
    }
}

/// The place of the handler `id` from `i` on.
pub open spec fn handler_place(hs: Seq<HandlerV>, id: i64, i: int) -> int
    decreases hs.len() - i,
{
    if i < 0 || i >= hs.len() || hs[i].id == id {
        i
    } else {
        handler_place(hs, id, i + 1)
    }
}

/// The function of the handler `id`.
pub open spec fn handler_of(st: HuiV, id: i64) -> Option<Value> {
    let i = handler_place(st.handlers, id, 0);
    if i < st.handlers.len() {
        Some(st.handlers[i].callee)
    } else {
        None
    }
}

/// A handler.
#[derive(Debug)]
pub struct Handler {
    pub id: i64,
    pub root: String,
    pub callee: Value,
}

impl View for Handler {
    type V = HandlerV;

    open spec fn view(&self) -> HandlerV {
        HandlerV { id: self.id, root: self.root@, callee: self.callee }
    }
}

/// The handlers of a list.
pub open spec fn handlers_v(s: Seq<Handler>) -> Seq<HandlerV> {
    s.map_values(|h: Handler| h@)
}

/// The handlers of a page.
pub struct HuiState {
    pub handlers: Vec<Handler>,
    pub seq: i64,
}

impl View for HuiState {
    type V = HuiV;

    open spec fn view(&self) -> HuiV {
        HuiV { handlers: handlers_v(self.handlers@), seq: self.seq }
    }
}

impl HuiState {
    pub fn new() -> (r: HuiState)
        ensures
            r@ == (HuiV { handlers: Seq::empty(), seq: 0 }),
    {
        let r = HuiState { handlers: Vec::new(), seq: 0 };
        assert(r@.handlers =~= Seq::<HandlerV>::empty());
        r
    }

    /// The function of the handler `id`.
    pub fn handler(&self, id: i64) -> (r: Option<Value>)
        ensures
            r == handler_of(self@, id),
    {
        let ghost hs = self@.handlers;
        let mut i: usize = 0;
        while i < self.handlers.len() && self.handlers[i].id != id
            invariant
                i <= self.handlers@.len(),
                hs == self@.handlers,
                handler_place(hs, id, 0) == handler_place(hs, id, i as int),
            decreases self.handlers@.len() - i,
        {
            assert(hs[i as int] == self.handlers@[i as int]@);
            i = i + 1;
        }
        if i < self.handlers.len() {
            assert(hs[i as int] == self.handlers@[i as int]@);
            Some(self.handlers[i].callee)
        } else {
            None
        }
    }

    fn register(&mut self, root: &str, callee: Value) -> (id: i64)
        requires
            old(self).seq < i64::MAX,
        ensures
            final(self)@ == registered(old(self)@, root@, callee),
            id == final(self).seq,
    {
        let ghost before = self.handlers@;
        self.seq = self.seq + 1;
        let h = Handler { id: self.seq, root: root.to_owned(), callee };
        self.handlers.push(h);
        assert(handlers_v(self.handlers@) =~= handlers_v(before).push(h@));
        self.seq
    }

    /// A copy of the handlers, without those of `root`.
    fn without(&self, root: &str) -> (r: HuiState)
        ensures
            r@ == released(self@, root@),
    {
        let ghost hs = self@.handlers;
        let mut kept: Vec<Handler> = Vec::new();
        let mut i: usize = 0;
        assert(handlers_v(kept@) =~= Seq::<HandlerV>::empty());
        while i < self.handlers.len()
            invariant
                i <= self.handlers@.len(),
                hs == self@.handlers,
                handlers_v(kept@) == handlers_without(hs, root@, i as int),
            decreases self.handlers@.len() - i,
        {
            assert(hs[i as int] == self.handlers@[i as int]@);
            if !text_eq(self.handlers[i].root.as_str(), root) {
                let ghost before = kept@;
                let h = Handler {
                    id: self.handlers[i].id,
                    root: self.handlers[i].root.clone(),
                    callee: self.handlers[i].callee,
                };
                kept.push(h);
                assert(handlers_v(kept@) =~= handlers_v(before).push(h@));
            }
            i = i + 1;
        }
        HuiState { handlers: kept, seq: self.seq }
    }
}

/// The handlers once something is rendered, and its text.
pub type Rendered = (HuiV, TryV<Seq<char>>);

/// The text of a plain value in HTML.
pub open spec fn plain_html(h: Seq<CellV>, f: Seq<FactV>, v: Value) -> TryV<Seq<char>> {
    match coerced(h, f, v) {
        TryV::Done(s) => TryV::Done(esc_of(s)),
        other => other,
    }
}

/// What behind `done` text becomes of the outcome of more.
pub open spec fn joined(done: Seq<char>, more: TryV<Seq<char>>) -> TryV<Seq<char>> {
    match more {
        TryV::Done(s) => TryV::Done(done + s),
        other => other,
    }
}

/// The HTML of a node, nested no deeper than `d`.
pub open spec fn rendered(
    h: Seq<CellV>,
    f: Seq<FactV>,
    d: nat,
    st: HuiV,
    root: Seq<char>,
    node: Value,
) -> Rendered
    decreases d, 0int, 0int,
{
    match node {
        Value::Nil => (st, TryV::Done(Seq::empty())),
        Value::Str(_) => (st, plain_html(h, f, node)),
        Value::Int(_) => (st, plain_html(h, f, node)),
        Value::Float(_) => (st, plain_html(h, f, node)),
        Value::Bool(_) => (st, plain_html(h, f, node)),
        Value::Array(i) => if d == 0 {
            (st, TryV::Fail(too_deep()))
        } else {
            let xs = array_at(h, i);
            if xs.len() > 0 && xs[0] is Str {
                let tag = str_at(h, xs[0]->Str_0);
                let dressed = xs.len() > 1 && xs[1] is Dict;
                let attrs = if dressed {
                    map_at(h, xs[1]->Dict_0)
                } else {
                    Seq::empty()
                };
                let (a, at) = rendered_attrs(h, f, st, root, attrs, attrs.len() as int);
                match at {
                    TryV::Done(at) => {
                        let from = if dressed {
                            2
                        } else {
                            1
                        };
                        let (b, kids) = rendered_kids(
                            h,
                            f,
                            (d - 1) as nat,
                            a,
                            root,
                            xs,
                            from,
                            xs.len() as int,
                        );
                        match kids {
                            TryV::Done(k) => (
                                b,
                                TryV::Done(
                                    "<"@ + tag + at + ">"@ + k + "</"@ + tag + ">"@,
                                ),
                            ),
                            other => (b, other),
                        }
                    },
                    other => (a, other),
                }
            } else {
                rendered_kids(h, f, (d - 1) as nat, st, root, xs, 0, xs.len() as int)
            }
        },
        _ => (st, TryV::Fail("cannot render a "@ + kind_of(node) + " as UI"@)),
    }
}

/// The HTML of the nodes from `from` up to `n`.
pub open spec fn rendered_kids(
    h: Seq<CellV>,
    f: Seq<FactV>,
    d: nat,
    st: HuiV,
    root: Seq<char>,
    xs: Seq<Value>,
    from: int,
    n: int,
) -> Rendered
    decreases d, 1int, n,
{
    if n <= from || n <= 0 || n > xs.len() {
        (st, TryV::Done(Seq::empty()))
    } else {
        let (a, r) = rendered_kids(h, f, d, st, root, xs, from, n - 1);
        match r {
            TryV::Done(done) => {
                let (b, more) = rendered(h, f, d, a, root, xs[n - 1]);
                (b, joined(done, more))
            },
            other => (a, other),
        }
    }
}

/// The text of one attribute.
pub open spec fn rendered_attr(
    h: Seq<CellV>,
    f: Seq<FactV>,
    st: HuiV,
    root: Seq<char>,
    k: Value,
    v: Value,
) -> Rendered {
    match k {
        Value::Str(i) => {
            let name = str_at(h, i);
            match v {
                Value::Closure(_) => if st.seq == i64::MAX {
                    (st, TryV::Fail("too many handlers"@))
                } else {
                    let next = registered(st, root, v);
                    (
                        next,
                        TryV::Done(
                            " "@ + name + "=\"__hopHandler("@ + dec_int(next.seq as int)
                                + ", event)\""@,
                        ),
                    )
                },
                Value::Bool(b) => (
                    st,
                    TryV::Done(
                        if b {
                            " "@ + name
                        } else {
                            Seq::empty()
                        },
                    ),
                ),
                Value::Nil => (st, TryV::Done(Seq::empty())),
                _ => (
                    st,
                    match plain_html(h, f, v) {
                        TryV::Done(s) => TryV::Done(" "@ + name + "=\""@ + s + "\""@),
                        other => other,
                    },
                ),
            }
        },
        _ => (st, TryV::Fail("attr name must be a string, got "@ + kind_of(k))),
    }
}

/// The text of the first `n` attributes.
pub open spec fn rendered_attrs(
    h: Seq<CellV>,
    f: Seq<FactV>,
    st: HuiV,
    root: Seq<char>,
    m: Seq<(Value, Value)>,
    n: int,
) -> Rendered
    decreases n,
{
    if n <= 0 || n > m.len() {
        (st, TryV::Done(Seq::empty()))
    } else {
        let (a, r) = rendered_attrs(h, f, st, root, m, n - 1);
        match r {
            TryV::Done(done) => {
                let (b, more) = rendered_attr(h, f, a, root, m[n - 1].0, m[n - 1].1);
                (b, joined(done, more))
            },
            other => (a, other),
        }
    }
}

/// The HTML of a page's root, whose handlers are those of this rendering. Where
/// a fact is wanted first, nothing has changed.
pub open spec fn hui_rendered(
    h: Seq<CellV>,
    f: Seq<FactV>,
    st: HuiV,
    root: Seq<char>,
    node: Value,
) -> Rendered {
    let (a, r) = rendered(h, f, h.len(), released(st, root), root, node);
    if r is Need {
        (st, r)
    } else {
        (a, r)
    }
}

/// The text behind `out`, or the outcome that comes in its place.
fn plain_text(heap: &Heap, floats: &FloatTable, v: Value) -> (r: Try<String>)
    ensures
        same_text(r, plain_html(heap@, floats@, v)),
{
    match heap.coerce_str(floats, v) {
        Try::Done(s) => Try::Done(esc(s.as_str())),
        Try::Fail(m) => Try::Fail(m),
        Try::Need(q) => Try::Need(q),
    }
}

fn render_attr(
    heap: &Heap,
    floats: &FloatTable,
    st: &mut HuiState,
    root: &str,
    k: Value,
    v: Value,
) -> (r: Try<String>)
    ensures
        ({
            let (b, s) = rendered_attr(heap@, floats@, old(st)@, root@, k, v);
            final(st)@ == b && same_text(r, s)
        }),
{
    match k {
        Value::Str(i) => {
            let mut out: String = " ".to_owned();
            out.append(heap.str_at(i));
            match v {
                Value::Closure(_) => {
                    if st.seq == i64::MAX {
                        return Try::Fail("too many handlers".to_owned());
                    }
                    let id: i64 = st.register(root, v);
                    out.append("=\"__hopHandler(");
                    out.append(dec_i64(id).as_str());
                    out.append(", event)\"");
                    Try::Done(out)
                },
                Value::Bool(b) => {
                    if b {
                        Try::Done(out)
                    } else {
                        let none: String = String::new();
                        assert(none@ =~= Seq::<char>::empty());
                        Try::Done(none)
                    }
                },
                Value::Nil => {
                    let none: String = String::new();
                    assert(none@ =~= Seq::<char>::empty());
                    Try::Done(none)
                },
                _ => match plain_text(heap, floats, v) {
                    Try::Done(s) => {
                        out.append("=\"");
                        out.append(s.as_str());
                        out.append("\"");
                        Try::Done(out)
                    },
                    Try::Fail(m) => Try::Fail(m),
                    Try::Need(q) => Try::Need(q),
                },
            }
        },
        _ => {
            let mut m: String = "attr name must be a string, got ".to_owned();
            m.append(k.kind());
            Try::Fail(m)
        },
    }
}

proof fn lemma_attrs_stop(
    h: Seq<CellV>,
    f: Seq<FactV>,
    st: HuiV,
    root: Seq<char>,
    m: Seq<(Value, Value)>,
    i: int,
    n: int,
)
    requires
        0 <= i <= n <= m.len(),
        !(rendered_attrs(h, f, st, root, m, i).1 is Done),
    ensures
        rendered_attrs(h, f, st, root, m, n) == rendered_attrs(h, f, st, root, m, i),
    decreases n,
{
    if i < n {
        lemma_attrs_stop(h, f, st, root, m, i, n - 1);
    }
}

fn render_attrs(
    heap: &Heap,
    floats: &FloatTable,
    st: &mut HuiState,
    root: &str,
    m: &Vec<(Value, Value)>,
) -> (r: Try<String>)
    ensures
        ({
            let (b, s) = rendered_attrs(heap@, floats@, old(st)@, root@, m@, m@.len() as int);
            final(st)@ == b && same_text(r, s)
        }),
{
    let ghost st0 = st@;
    let mut out: String = String::new();
    let mut i: usize = 0;
    assert(out@ =~= Seq::<char>::empty());
    while i < m.len()
        invariant
            i <= m@.len(),
            st0 == old(st)@,
            rendered_attrs(heap@, floats@, st0, root@, m@, i as int) == (st@, TryV::Done(out@)),
        decreases m@.len() - i,
    {
        match render_attr(heap, floats, st, root, m[i].0, m[i].1) {
            Try::Done(s) => {
                out.append(s.as_str());
            },
            Try::Fail(e) => {
                proof {
                    lemma_attrs_stop(heap@, floats@, st0, root@, m@, i + 1, m@.len() as int);
                }
                return Try::Fail(e);
            },
            Try::Need(q) => {
                proof {
                    lemma_attrs_stop(heap@, floats@, st0, root@, m@, i + 1, m@.len() as int);
                }
                return Try::Need(q);
            },
        }
        i = i + 1;
    }
    Try::Done(out)
}

proof fn lemma_kids_stop(
    h: Seq<CellV>,
    f: Seq<FactV>,
    d: nat,
    st: HuiV,
    root: Seq<char>,
    xs: Seq<Value>,
    from: int,
    i: int,
    n: int,
)
    requires
        0 <= i <= n <= xs.len(),
        !(rendered_kids(h, f, d, st, root, xs, from, i).1 is Done),
    ensures
        rendered_kids(h, f, d, st, root, xs, from, n) == rendered_kids(
            h,
            f,
            d,
            st,
            root,
            xs,
            from,
            i,
        ),
    decreases n,
{
    if i < n {
        lemma_kids_stop(h, f, d, st, root, xs, from, i, n - 1);
    }
}

fn render_kids(
    heap: &Heap,
    floats: &FloatTable,
    d: usize,
    st: &mut HuiState,
    root: &str,
    xs: &Vec<Value>,
    from: usize,
) -> (r: Try<String>)
    ensures
        ({
            let (b, s) = rendered_kids(
                heap@,
                floats@,
                d as nat,
                old(st)@,
                root@,
                xs@,
                from as int,
                xs@.len() as int,
            );
            final(st)@ == b && same_text(r, s)
        }),
    decreases d, 1int,
{
    let ghost st0 = st@;
    let mut out: String = String::new();
    assert(out@ =~= Seq::<char>::empty());
    let mut i: usize = from;
    while i < xs.len()
        invariant
            from <= i,
            i <= xs@.len() || i == from,
            st0 == old(st)@,
            rendered_kids(heap@, floats@, d as nat, st0, root@, xs@, from as int, i as int) == (
                st@,
                TryV::Done(out@),
            ),
        decreases xs@.len() - i,
    {
        match render_node(heap, floats, d, st, root, xs[i]) {
            Try::Done(s) => {
                out.append(s.as_str());
            },
            Try::Fail(e) => {
                proof {
                    lemma_kids_stop(
                        heap@,
                        floats@,
                        d as nat,
                        st0,
                        root@,
                        xs@,
                        from as int,
                        i + 1,
                        xs@.len() as int,
                    );
                }
                return Try::Fail(e);
            },
            Try::Need(q) => {
                proof {
                    lemma_kids_stop(
                        heap@,
                        floats@,
                        d as nat,
                        st0,
                        root@,
                        xs@,
                        from as int,
                        i + 1,
                        xs@.len() as int,
                    );
                }
                return Try::Need(q);
            },
        }
        i = i + 1;
    }
    Try::Done(out)
}

/// The HTML of a node, nested no deeper than `d`.
pub fn render_node(
    heap: &Heap,
    floats: &FloatTable,
    d: usize,
    st: &mut HuiState,
    root: &str,
    node: Value,
) -> (r: Try<String>)
    ensures
        ({
            let (b, s) = rendered(heap@, floats@, d as nat, old(st)@, root@, node);
            final(st)@ == b && same_text(r, s)
        }),
    decreases d, 0int,
{
    match node {
        Value::Nil => {
            let none: String = String::new();
            assert(none@ =~= Seq::<char>::empty());
            Try::Done(none)
        },
        Value::Str(_) | Value::Int(_) | Value::Float(_) | Value::Bool(_) => plain_text(
            heap,
            floats,
            node,
        ),
        Value::Array(i) => {
            if d == 0 {
                return Try::Fail("value is nested too deeply".to_owned());
            }
            let xs: Vec<Value> = heap.items(i);
            let first: Value = if xs.len() > 0 {
                xs[0]
            } else {
                Value::Nil
            };
            match first {
                Value::Str(t) => {
                    let second: Value = if xs.len() > 1 {
                        xs[1]
                    } else {
                        Value::Nil
                    };
                    let mut from: usize = 1;
                    let mut attrs: Vec<(Value, Value)> = Vec::new();
                    if let Value::Dict(m) = second {
                        from = 2;
                        attrs = heap.entries(m);
                    }
                    assert(attrs@ =~= if xs@.len() > 1 && xs@[1] is Dict {
                        map_at(heap@, xs@[1]->Dict_0)
                    } else {
                        Seq::empty()
                    });
                    let at: String = match render_attrs(heap, floats, st, root, &attrs) {
                        Try::Done(s) => s,
                        Try::Fail(m) => {
                            return Try::Fail(m);
                        },
                        Try::Need(q) => {
                            return Try::Need(q);
                        },
                    };
                    match render_kids(heap, floats, d - 1, st, root, &xs, from) {
                        Try::Done(k) => {
                            let tag = heap.str_at(t);
                            let mut out: String = "<".to_owned();
                            out.append(tag);
                            out.append(at.as_str());
                            out.append(">");
                            out.append(k.as_str());
                            out.append("</");
                            out.append(tag);
                            out.append(">");
                            Try::Done(out)
                        },
                        Try::Fail(m) => Try::Fail(m),
                        Try::Need(q) => Try::Need(q),
                    }
                },
                _ => render_kids(heap, floats, d - 1, st, root, &xs, 0),
            }
        },
        _ => {
            let mut m: String = "cannot render a ".to_owned();
            m.append(node.kind());
            m.append(" as UI");
            Try::Fail(m)
        },
    }
}

/// Renders a page's root: the handlers of its last rendering are released, and
/// those of this one registered under ids that were never used.
pub fn hui_render(heap: &Heap, floats: &FloatTable, st: &mut HuiState, root: &str, node: Value) -> (r:
    Try<String>)
    ensures
        ({
            let (b, s) = hui_rendered(heap@, floats@, old(st)@, root@, node);
            final(st)@ == b && same_text(r, s)
        }),
{
    let mut next: HuiState = st.without(root);
    match render_node(heap, floats, heap.cells.len(), &mut next, root, node) {
        Try::Done(s) => {
            *st = next;
            Try::Done(s)
        },
        Try::Fail(m) => {
            *st = next;
            Try::Fail(m)
        },
        Try::Need(q) => Try::Need(q),
    }
}

/// No character of escaped text opens or closes a tag or an attribute.
pub proof fn law_escaped_is_inert(s: Seq<char>, n: int)
    ensures
        forall|i: int|
            0 <= i < escaped(s, n).len() ==> (#[trigger] escaped(s, n)[i]) != '<' && escaped(
                s,
                n,
            )[i] != '>' && escaped(s, n)[i] != '"',
    decreases n,
{
    reveal_strlit("&amp;");
    reveal_strlit("&lt;");
    reveal_strlit("&gt;");
    reveal_strlit("&quot;");
    if 0 < n && n <= s.len() {
        law_escaped_is_inert(s, n - 1);
        let a = escaped(s, n - 1);
        let b = esc_char(s[n - 1]);
        assert forall|i: int| 0 <= i < escaped(s, n).len() implies (#[trigger] escaped(s, n)[i])
            != '<' && escaped(s, n)[i] != '>' && escaped(s, n)[i] != '"' by {
            if i < a.len() {
                assert(escaped(s, n)[i] == a[i]);
            } else {
                assert(escaped(s, n)[i] == b[i - a.len()]);
            }
        }
    }
}

/// All handlers have different ids, none above the last one given out.
pub open spec fn ids_given_out(st: HuiV) -> bool {
    &&& forall|i: int| 0 <= i < st.handlers.len() ==> (#[trigger] st.handlers[i]).id <= st.seq
    &&& forall|i: int, j: int|
        0 <= i < j < st.handlers.len() ==> (#[trigger] st.handlers[i]).id
            < (#[trigger] st.handlers[j]).id
}

proof fn lemma_without(hs: Seq<HandlerV>, root: Seq<char>, seq: i64, n: int)
    requires
        0 <= n <= hs.len(),
        ids_given_out(HuiV { handlers: hs, seq }),
    ensures
        ids_given_out(HuiV { handlers: handlers_without(hs, root, n), seq }),
        forall|i: int|
            0 <= i < handlers_without(hs, root, n).len() ==> (#[trigger] handlers_without(
                hs,
                root,
                n,
            )[i]).root != root && (n == 0 || handlers_without(hs, root, n)[i].id <= hs[n - 1].id),
    decreases n,
{
    if n > 0 {
        lemma_without(hs, root, seq, n - 1);
        let a = handlers_without(hs, root, n - 1);
        let b = handlers_without(hs, root, n);
        if n > 1 {
            assert(hs[n - 2].id < hs[n - 1].id);
        }
        assert forall|i: int, j: int| 0 <= i < j < b.len() implies (#[trigger] b[i]).id
            < (#[trigger] b[j]).id by {
            assert(a[i] == b[i]);
            if j < a.len() {
                assert(a[j] == b[j]);
            }
        }
        assert forall|i: int| 0 <= i < b.len() implies (#[trigger] b[i]).root != root && b[i].id
            <= hs[n - 1].id && b[i].id <= seq by {
            if i < a.len() {
                assert(a[i] == b[i]);
            }
        }
    }
}

/// `b` has the handlers of `a`, and behind them handlers of `root` with ids that
/// were not given out before.
pub open spec fn grown(a: HuiV, b: HuiV, root: Seq<char>) -> bool {
    let n = a.handlers.len() as int;
    &&& n <= b.handlers.len()
    &&& b.handlers.take(n) == a.handlers
    &&& a.seq <= b.seq
    &&& forall|i: int|
        n <= i < b.handlers.len() ==> (#[trigger] b.handlers[i]).root == root && b.handlers[i].id
            > a.seq
}

proof fn lemma_grown(a: HuiV, b: HuiV, c: HuiV, root: Seq<char>)
    requires
        grown(a, b, root),
        grown(b, c, root),
    ensures
        grown(a, c, root),
{
    let n = a.handlers.len() as int;
    let m = b.handlers.len() as int;
    assert(c.handlers.take(n) =~= c.handlers.take(m).take(n));
    assert forall|i: int| n <= i < c.handlers.len() implies (#[trigger] c.handlers[i]).root == root
        && c.handlers[i].id > a.seq by {
        if i < m {
            assert(c.handlers.take(m)[i] == b.handlers[i]);
        }
    }
}

proof fn lemma_not_grown(a: HuiV, root: Seq<char>)
    ensures
        grown(a, a, root),
{
    assert(a.handlers.take(a.handlers.len() as int) =~= a.handlers);
}

proof fn lemma_attrs_ids(
    h: Seq<CellV>,
    f: Seq<FactV>,
    st: HuiV,
    root: Seq<char>,
    m: Seq<(Value, Value)>,
    n: int,
)
    requires
        ids_given_out(st),
    ensures
        ids_given_out(rendered_attrs(h, f, st, root, m, n).0),
        grown(st, rendered_attrs(h, f, st, root, m, n).0, root),
    decreases n,
{
    lemma_not_grown(st, root);
    if 0 < n && n <= m.len() {
        lemma_attrs_ids(h, f, st, root, m, n - 1);
        let (a, r) = rendered_attrs(h, f, st, root, m, n - 1);
        if r is Done {
            let b = rendered_attr(h, f, a, root, m[n - 1].0, m[n - 1].1).0;
            lemma_not_grown(a, root);
            if b != a {
                assert(b.handlers.take(a.handlers.len() as int) =~= a.handlers);
            }
            assert(grown(a, b, root));
            lemma_grown(st, a, b, root);
        }
    }
}

proof fn lemma_kids_ids(
    h: Seq<CellV>,
    f: Seq<FactV>,
    d: nat,
    st: HuiV,
    root: Seq<char>,
    xs: Seq<Value>,
    from: int,
    n: int,
)
    requires
        ids_given_out(st),
    ensures
        ids_given_out(rendered_kids(h, f, d, st, root, xs, from, n).0),
        grown(st, rendered_kids(h, f, d, st, root, xs, from, n).0, root),
    decreases d, 1int, n,
{
    lemma_not_grown(st, root);
    if n > from && 0 < n && n <= xs.len() {
        lemma_kids_ids(h, f, d, st, root, xs, from, n - 1);
        let (a, r) = rendered_kids(h, f, d, st, root, xs, from, n - 1);
        if r is Done {
            lemma_node_ids(h, f, d, a, root, xs[n - 1]);
            lemma_grown(st, a, rendered(h, f, d, a, root, xs[n - 1]).0, root);
        }
    }
}

proof fn lemma_node_ids(
    h: Seq<CellV>,
    f: Seq<FactV>,
    d: nat,
    st: HuiV,
    root: Seq<char>,
    node: Value,
)
    requires
        ids_given_out(st),
    ensures
        ids_given_out(rendered(h, f, d, st, root, node).0),
        grown(st, rendered(h, f, d, st, root, node).0, root),
    decreases d, 0int, 0int,
{
    lemma_not_grown(st, root);
    if let Value::Array(i) = node {
        if d > 0 {
            let xs = array_at(h, i);
            if xs.len() > 0 && xs[0] is Str {
                let dressed = xs.len() > 1 && xs[1] is Dict;
                let attrs = if dressed {
                    map_at(h, xs[1]->Dict_0)
                } else {
                    Seq::empty()
                };
                lemma_attrs_ids(h, f, st, root, attrs, attrs.len() as int);
                let (a, at) = rendered_attrs(h, f, st, root, attrs, attrs.len() as int);
                let from = if dressed {
                    2
                } else {
                    1
                };
                lemma_kids_ids(h, f, (d - 1) as nat, a, root, xs, from, xs.len() as int);
                let b = rendered_kids(
                    h,
                    f,
                    (d - 1) as nat,
                    a,
                    root,
                    xs,
                    from,
                    xs.len() as int,
                ).0;
                lemma_grown(st, a, b, root);
            } else {
                lemma_kids_ids(h, f, (d - 1) as nat, st, root, xs, 0, xs.len() as int);
            }
        }
    }
}

/// Handler ids are never reused: a rendering keeps all ids different, and gives
/// out only ids above those given out before.
pub proof fn law_handler_ids_are_fresh(
    h: Seq<CellV>,
    f: Seq<FactV>,
    st: HuiV,
    root: Seq<char>,
    node: Value,
)
    requires
        ids_given_out(st),
    ensures
        ids_given_out(hui_rendered(h, f, st, root, node).0),
        hui_rendered(h, f, st, root, node).0.seq >= st.seq,
{
    lemma_without(st.handlers, root, st.seq, st.handlers.len() as int);
    lemma_node_ids(h, f, h.len(), released(st, root), root, node);
}

/// Rendering a root again releases its handlers: it keeps those of the other
/// roots as they are, and has none of its own but those of this rendering.
pub proof fn law_rendering_releases_handlers(
    h: Seq<CellV>,
    f: Seq<FactV>,
    st: HuiV,
    root: Seq<char>,
    node: Value,
)
    requires
        ids_given_out(st),
        !(hui_rendered(h, f, st, root, node).1 is Need),
    ensures
        grown(released(st, root), hui_rendered(h, f, st, root, node).0, root),
        ({
            let t = hui_rendered(h, f, st, root, node).0;
            forall|i: int|
                0 <= i < t.handlers.len() && (#[trigger] t.handlers[i]).root == root
                    ==> t.handlers[i].id > st.seq
        }),
{
    lemma_without(st.handlers, root, st.seq, st.handlers.len() as int);
    let kept = released(st, root);
    lemma_node_ids(h, f, h.len(), kept, root, node);
    let t = hui_rendered(h, f, st, root, node).0;
    let n = kept.handlers.len() as int;
    assert forall|i: int|
        0 <= i < t.handlers.len() && (#[trigger] t.handlers[i]).root == root implies t.handlers[i].id
        > st.seq by {
        if i < n {
            assert(t.handlers.take(n)[i] == kept.handlers[i]);
        }
    }
}

} // verus!
