//! What the nodes of a page come to in HTML.

use crate::float::FactV;
use crate::hui::{
    esc_of, escaped, handler_of, handler_place, ids_given_out, registered, rendered,
    rendered_attr, rendered_attrs, rendered_kids, HuiV,
};
use crate::text::dec_int;
use crate::value::{array_at, map_at, str_at, CellV, TryV, Value};
use vstd::prelude::*;
use vstd::string::*;

verus! {

proof fn lemma_escaped_prefix(a: Seq<char>, b: Seq<char>, n: int)
    requires
        0 <= n <= a.len(),
    ensures
        escaped(a + b, n) == escaped(a, n),
    decreases n,
{
    if n > 0 {
        lemma_escaped_prefix(a, b, n - 1);
        assert((a + b)[n - 1] == a[n - 1]);
    }
}

proof fn lemma_escaped_rest(a: Seq<char>, b: Seq<char>, n: int)
    requires
        0 <= n <= b.len(),
    ensures
        escaped(a + b, a.len() + n) == esc_of(a) + escaped(b, n),
    decreases n,
{
    if n > 0 {
        lemma_escaped_rest(a, b, n - 1);
        assert((a + b)[a.len() + n - 1] == b[n - 1]);
        assert(escaped(a + b, a.len() + n) =~= esc_of(a) + escaped(b, n));
    } else {
        lemma_escaped_prefix(a, b, a.len() as int);
        assert(esc_of(a) + escaped(b, 0) =~= esc_of(a));
    }
}

/// A text in HTML is that of its characters in turn: the four that are markup
/// are spelled out, and the others stand for themselves.
pub proof fn law_characters_are_escaped(a: Seq<char>, b: Seq<char>, c: char)
    ensures
        esc_of(a + b) == esc_of(a) + esc_of(b),
        esc_of(Seq::empty()) == Seq::<char>::empty(),
        esc_of(seq!['&']) == "&amp;"@,
        esc_of(seq!['<']) == "&lt;"@,
        esc_of(seq!['>']) == "&gt;"@,
        esc_of(seq!['"']) == "&quot;"@,
        c != '&' && c != '<' && c != '>' && c != '"' ==> esc_of(seq![c]) == seq![c],
{
    lemma_escaped_rest(a, b, b.len() as int);
    reveal_with_fuel(escaped, 3);
    assert(Seq::<char>::empty() + "&amp;"@ =~= "&amp;"@);
    assert(Seq::<char>::empty() + "&lt;"@ =~= "&lt;"@);
    assert(Seq::<char>::empty() + "&gt;"@ =~= "&gt;"@);
    assert(Seq::<char>::empty() + "&quot;"@ =~= "&quot;"@);
    assert(Seq::<char>::empty() + seq![c] =~= seq![c]);
    assert(seq!['&'][0] == '&' && seq!['<'][0] == '<' && seq!['>'][0] == '>' && seq!['"'][0]
        == '"' && seq![c][0] == c);
}

/// Nothing is shown of nil, and of a text its characters, escaped.
pub proof fn law_texts_are_shown(
    h: Seq<CellV>,
    f: Seq<FactV>,
    d: nat,
    st: HuiV,
    root: Seq<char>,
    i: usize,
)
    ensures
        rendered(h, f, d, st, root, Value::Nil) == (st, TryV::Done(Seq::<char>::empty())),
        rendered(h, f, d, st, root, Value::Str(i)) == (st, TryV::Done(esc_of(str_at(h, i)))),
        rendered(h, f, d, st, root, Value::Bool(true)) == (st, TryV::Done(esc_of("true"@))),
        rendered(h, f, d, st, root, Value::Bool(false)) == (st, TryV::Done(esc_of("false"@))),
{
}

/// Nodes one after the other are shown one after the other, and the handlers of
/// the first are there when the next is shown.
pub proof fn law_nodes_are_shown_in_turn(
    h: Seq<CellV>,
    f: Seq<FactV>,
    d: nat,
    st: HuiV,
    root: Seq<char>,
    xs: Seq<Value>,
    from: int,
    n: int,
)
    requires
        0 <= from <= n < xs.len(),
        rendered_kids(h, f, d, st, root, xs, from, n).1 is Done,
    ensures
        rendered_kids(h, f, d, st, root, xs, from, from) == (
            st,
            TryV::Done(Seq::<char>::empty()),
        ),
        ({
            let (a, before) = rendered_kids(h, f, d, st, root, xs, from, n);
            let (b, one) = rendered(h, f, d, a, root, xs[n]);
            let (c, all) = rendered_kids(h, f, d, st, root, xs, from, n + 1);
            &&& c == b
            &&& one is Done ==> all == TryV::Done(before->Done_0 + one->Done_0)
            &&& !(one is Done) ==> all == one
        }),
{
    reveal_with_fuel(rendered_kids, 3);
}

/// An element is its tag in angle brackets with its attributes, what is in it,
/// and its tag in angle brackets with a slash.
pub proof fn law_elements_are_tagged(
    h: Seq<CellV>,
    f: Seq<FactV>,
    d: nat,
    st: HuiV,
    root: Seq<char>,
    i: usize,
    tag: usize,
)
    requires
        d > 0,
        array_at(h, i).len() > 0,
        array_at(h, i)[0] == Value::Str(tag),
        array_at(h, i).len() > 1 ==> !(array_at(h, i)[1] is Dict),
        rendered(h, f, d, st, root, Value::Array(i)).1 is Done,
    ensures
        ({
            let xs = array_at(h, i);
            let kids = rendered_kids(h, f, (d - 1) as nat, st, root, xs, 1, xs.len() as int);
            &&& kids.1 is Done
            &&& rendered(h, f, d, st, root, Value::Array(i)).0 == kids.0
            &&& rendered(h, f, d, st, root, Value::Array(i)).1->Done_0 =~= "<"@ + str_at(h, tag)
                + ">"@ + kids.1->Done_0 + "</"@ + str_at(h, tag) + ">"@
        }),
{
    reveal_with_fuel(rendered, 2);
    let none = Seq::<(Value, Value)>::empty();
    assert(rendered_attrs(h, f, st, root, none, 0) == (st, TryV::Done(Seq::<char>::empty())));
    let t = str_at(h, tag);
    assert("<"@ + t + Seq::<char>::empty() =~= "<"@ + t);
}

/// An element with attributes has them behind its tag.
pub proof fn law_elements_are_dressed(
    h: Seq<CellV>,
    f: Seq<FactV>,
    d: nat,
    st: HuiV,
    root: Seq<char>,
    i: usize,
    tag: usize,
    m: usize,
)
    requires
        d > 0,
        array_at(h, i).len() > 1,
        array_at(h, i)[0] == Value::Str(tag),
        array_at(h, i)[1] == Value::Dict(m),
        rendered(h, f, d, st, root, Value::Array(i)).1 is Done,
    ensures
        ({
            let xs = array_at(h, i);
            let at = rendered_attrs(h, f, st, root, map_at(h, m), map_at(h, m).len() as int);
            let kids = rendered_kids(h, f, (d - 1) as nat, at.0, root, xs, 2, xs.len() as int);
            &&& at.1 is Done
            &&& kids.1 is Done
            &&& rendered(h, f, d, st, root, Value::Array(i)).0 == kids.0
            &&& rendered(h, f, d, st, root, Value::Array(i)).1->Done_0 =~= "<"@ + str_at(h, tag)
                + at.1->Done_0 + ">"@ + kids.1->Done_0 + "</"@ + str_at(h, tag) + ">"@
        }),
{
    reveal_with_fuel(rendered, 2);
}

/// Attributes follow each other: a text as the name and the escaped text in
/// quotes; true as the name alone; false and nil not at all.
pub proof fn law_attributes_are_shown(
    h: Seq<CellV>,
    f: Seq<FactV>,
    st: HuiV,
    root: Seq<char>,
    k: usize,
    v: usize,
)
    ensures
        rendered_attr(h, f, st, root, Value::Str(k), Value::Str(v)) == (
            st,
            TryV::Done(" "@ + str_at(h, k) + "=\""@ + esc_of(str_at(h, v)) + "\""@),
        ),
        rendered_attr(h, f, st, root, Value::Str(k), Value::Bool(true)) == (
            st,
            TryV::Done(" "@ + str_at(h, k)),
        ),
        rendered_attr(h, f, st, root, Value::Str(k), Value::Bool(false)) == (
            st,
            TryV::Done(Seq::<char>::empty()),
        ),
        rendered_attr(h, f, st, root, Value::Str(k), Value::Nil) == (
            st,
            TryV::Done(Seq::<char>::empty()),
        ),
{
}

/// The attributes of an element come one after the other, in the order of the
/// map.
pub proof fn law_attributes_come_in_turn(
    h: Seq<CellV>,
    f: Seq<FactV>,
    st: HuiV,
    root: Seq<char>,
    m: Seq<(Value, Value)>,
    n: int,
)
    requires
        0 <= n < m.len(),
        rendered_attrs(h, f, st, root, m, n).1 is Done,
    ensures
        rendered_attrs(h, f, st, root, m, 0) == (st, TryV::Done(Seq::<char>::empty())),
        ({
            let (a, before) = rendered_attrs(h, f, st, root, m, n);
            let (b, one) = rendered_attr(h, f, a, root, m[n].0, m[n].1);
            let (c, all) = rendered_attrs(h, f, st, root, m, n + 1);
            &&& c == b
            &&& one is Done ==> all == TryV::Done(before->Done_0 + one->Done_0)
            &&& !(one is Done) ==> all == one
        }),
{
}

proof fn lemma_new_handler(st: HuiV, root: Seq<char>, callee: Value, i: int)
    requires
        ids_given_out(st),
        st.seq < i64::MAX,
        0 <= i <= st.handlers.len(),
    ensures
        handler_place(registered(st, root, callee).handlers, (st.seq + 1) as i64, i)
            == st.handlers.len(),
    decreases st.handlers.len() - i,
{
    let hs = registered(st, root, callee).handlers;
    if i < st.handlers.len() {
        assert(hs[i] == st.handlers[i]);
        assert(st.handlers[i].id <= st.seq);
        lemma_new_handler(st, root, callee, i + 1);
    }
}

proof fn lemma_old_handler(st: HuiV, root: Seq<char>, callee: Value, id: i64, i: int)
    requires
        ids_given_out(st),
        st.seq < i64::MAX,
        0 <= i <= st.handlers.len(),
        id <= st.seq,
    ensures
        ({
            let p = handler_place(st.handlers, id, i);
            let q = handler_place(registered(st, root, callee).handlers, id, i);
            p < st.handlers.len() ==> q == p
        }),
        handler_place(st.handlers, id, i) >= i,
        handler_place(st.handlers, id, i) == st.handlers.len() ==> handler_place(
            registered(st, root, callee).handlers,
            id,
            i,
        ) == st.handlers.len() + 1,
        handler_place(st.handlers, id, i) <= st.handlers.len(),
    decreases st.handlers.len() - i,
{
    let hs = registered(st, root, callee).handlers;
    if i < st.handlers.len() {
        assert(hs[i] == st.handlers[i]);
        if st.handlers[i].id != id {
            lemma_old_handler(st, root, callee, id, i + 1);
        }
    } else {
        assert(hs[i].id == st.seq + 1);
        reveal_with_fuel(handler_place, 3);
    }
}

/// A function as an attribute is a call of the page's handler under an id that
/// leads to the function; the ids given out before lead where they led.
pub proof fn law_handlers_lead_to_their_functions(
    h: Seq<CellV>,
    f: Seq<FactV>,
    st: HuiV,
    root: Seq<char>,
    k: usize,
    c: usize,
    id: i64,
)
    requires
        ids_given_out(st),
        st.seq < i64::MAX,
        id <= st.seq,
    ensures
        ({
            let (t, r) = rendered_attr(h, f, st, root, Value::Str(k), Value::Closure(c));
            let new = (st.seq + 1) as i64;
            &&& r == TryV::Done(
                " "@ + str_at(h, k) + "=\"__hopHandler("@ + dec_int(new as int) + ", event)\""@,
            )
            &&& handler_of(t, new) == Some(Value::Closure(c))
            &&& handler_of(t, id) == handler_of(st, id)
        }),
{
    let v = Value::Closure(c);
    lemma_new_handler(st, root, v, 0);
    lemma_old_handler(st, root, v, id, 0);
    let hs = registered(st, root, v).handlers;
    let p = handler_place(st.handlers, id, 0);
    if p < st.handlers.len() {
        assert(hs[p] == st.handlers[p]);
    }
}

} // verus!
