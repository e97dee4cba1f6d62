//! Markdown as a tree of nodes: text stays text, and what looks like HTML in
//! it is shown, not interpreted.

use crate::data::{
    items_v, lemma_items, lemma_items_push, lemma_pairs, lemma_pairs_push, pairs_v, Data, DataV,
};
use pulldown_cmark::{CodeBlockKind, Event as MdEvent, Options, Parser as MdParser, Tag as MdTag};
use vstd::prelude::*;
use vstd::string::*;

verus! {

/// What a part of a text is.
#[derive(Debug)]
pub enum Mark {
    Start(Part),
    End,
    Text(String),
    Code(String),
    Html(String),
    SoftBreak,
    HardBreak,
    Rule,
    Other,
}

/// The kind of a nested part.
#[derive(Debug)]
pub enum Part {
    Paragraph,
    Heading(u8),
    BlockQuote,
    Indented,
    Fenced(String),
    OrderedList,
    BulletList,
    Item,
    Emphasis,
    Strong,
    Strikethrough,
    Link(String),
    Image(String),
    Table,
    TableHead,
    TableRow,
    TableCell,
    Other,
}

/// The model of a mark.
pub enum MarkV {
    Start(PartV),
    End,
    Text(Seq<char>),
    Code(Seq<char>),
    Html(Seq<char>),
    SoftBreak,
    HardBreak,
    Rule,
    Other,
}

/// The model of a part.
pub enum PartV {
    Paragraph,
    Heading(u8),
    BlockQuote,
    Indented,
    Fenced(Seq<char>),
    OrderedList,
    BulletList,
    Item,
    Emphasis,
    Strong,
    Strikethrough,
    Link(Seq<char>),
    Image(Seq<char>),
    Table,
    TableHead,
    TableRow,
    TableCell,
    Other,
}

impl View for Part {
    type V = PartV;

    open spec fn view(&self) -> PartV {
        match *self {
            Part::Paragraph => PartV::Paragraph,
            Part::Heading(n) => PartV::Heading(n),
            Part::BlockQuote => PartV::BlockQuote,
            Part::Indented => PartV::Indented,
            Part::Fenced(s) => PartV::Fenced(s@),
            Part::OrderedList => PartV::OrderedList,
            Part::BulletList => PartV::BulletList,
            Part::Item => PartV::Item,
            Part::Emphasis => PartV::Emphasis,
            Part::Strong => PartV::Strong,
            Part::Strikethrough => PartV::Strikethrough,
            Part::Link(s) => PartV::Link(s@),
            Part::Image(s) => PartV::Image(s@),
            Part::Table => PartV::Table,
            Part::TableHead => PartV::TableHead,
            Part::TableRow => PartV::TableRow,
            Part::TableCell => PartV::TableCell,
            Part::Other => PartV::Other,
        }
    }
}

impl View for Mark {
    type V = MarkV;

    open spec fn view(&self) -> MarkV {
        match *self {
            Mark::Start(p) => MarkV::Start(p@),
            Mark::End => MarkV::End,
            Mark::Text(s) => MarkV::Text(s@),
            Mark::Code(s) => MarkV::Code(s@),
            Mark::Html(s) => MarkV::Html(s@),
            Mark::SoftBreak => MarkV::SoftBreak,
            Mark::HardBreak => MarkV::HardBreak,
            Mark::Rule => MarkV::Rule,
            Mark::Other => MarkV::Other,
        }
    }
}

/// The marks of a list.
pub open spec fn marks_v(s: Seq<Mark>) -> Seq<MarkV> {
    s.map_values(|m: Mark| m@)
}

#[verifier::external_type_specification]
#[verifier::external_body]
pub struct ExMdTag<'a>(MdTag<'a>);

#[verifier::external_type_specification]
#[verifier::external_body]
pub struct ExMdEvent<'a>(MdEvent<'a>);

/// The kind of an inline or table part that a `pulldown_cmark::Tag` names.
#[verifier::external_body]
fn of_inline(t: &MdTag<'_>) -> Part {
    match t {
        MdTag::Emphasis => Part::Emphasis,
        MdTag::Strong => Part::Strong,
        MdTag::Strikethrough => Part::Strikethrough,
        MdTag::Link { dest_url, .. } => Part::Link(dest_url.to_string()),
        MdTag::Image { dest_url, .. } => Part::Image(dest_url.to_string()),
        MdTag::Table(_) => Part::Table,
        MdTag::TableHead => Part::TableHead,
        MdTag::TableRow => Part::TableRow,
        MdTag::TableCell => Part::TableCell,
        _ => Part::Other,
    }
}

/// The kind of part that a `pulldown_cmark::Tag` names.
#[verifier::external_body]
fn of_tag(t: &MdTag<'_>) -> Part {
    match t {
        MdTag::Paragraph => Part::Paragraph,
        MdTag::Heading { level, .. } => Part::Heading(*level as u8),
        MdTag::BlockQuote(_) => Part::BlockQuote,
        MdTag::CodeBlock(CodeBlockKind::Indented) => Part::Indented,
        MdTag::CodeBlock(CodeBlockKind::Fenced(s)) => Part::Fenced(s.to_string()),
        MdTag::List(Some(_)) => Part::OrderedList,
        MdTag::List(None) => Part::BulletList,
        MdTag::Item => Part::Item,
        _ => of_inline(t),
    }
}

/// The mark that a `pulldown_cmark::Event` is.
#[verifier::external_body]
fn of_event(e: &MdEvent<'_>) -> Mark {
    match e {
        MdEvent::Start(t) => Mark::Start(of_tag(t)),
        MdEvent::End(_) => Mark::End,
        MdEvent::Text(s) => Mark::Text(s.to_string()),
        MdEvent::Code(s) => Mark::Code(s.to_string()),
        MdEvent::Html(s) => Mark::Html(s.to_string()),
        MdEvent::InlineHtml(s) => Mark::Html(s.to_string()),
        MdEvent::SoftBreak => Mark::SoftBreak,
        MdEvent::HardBreak => Mark::HardBreak,
        MdEvent::Rule => Mark::Rule,
        _ => Mark::Other,
    }
}

/// The marks of a text under the given extensions.
pub uninterp spec fn marks_of(options: u32, src: Seq<char>) -> Seq<MarkV>;

/// The events of `pulldown_cmark::Parser::new_ext` on the text, with the
/// extensions whose bits are given; their list is named.
#[verifier::external_body]
fn parse_marks(options: u32, src: &str) -> (r: Vec<Mark>)
    ensures
        marks_v(r@) == marks_of(options, src@),
{
    MdParser::new_ext(src, Options::from_bits_truncate(options)).map(|e| of_event(&e)).collect()
}

/// Tables and strikethrough.
pub const EXTENSIONS: u32 = 10;

/// A node that is being built.
pub struct NodeV {
    pub tag: Seq<char>,
    pub attrs: Seq<(DataV, DataV)>,
    pub kids: Seq<DataV>,
}

/// The node as data: its tag, its attributes, and its children.
pub open spec fn sealed(n: NodeV) -> DataV {
    DataV::Array(seq![DataV::Text(n.tag), DataV::Dict(n.attrs)] + n.kids)
}

/// A node without attributes and children.
pub open spec fn bare(tag: Seq<char>) -> NodeV {
    NodeV { tag, attrs: Seq::empty(), kids: Seq::empty() }
}

/// A node with one attribute.
pub open spec fn dressed(tag: Seq<char>, k: Seq<char>, v: Seq<char>) -> NodeV {
    NodeV { tag, attrs: seq![(DataV::Text(k), DataV::Text(v))], kids: Seq::empty() }
}

/// The node that a part opens. Images are shown as links.
pub open spec fn node_of(p: PartV) -> NodeV {
    match p {
        PartV::Paragraph => bare("p"@),
        PartV::Heading(n) => bare(
            if n == 1 {
                "h1"@
            } else if n == 2 {
                "h2"@
            } else if n == 3 {
                "h3"@
            } else if n == 4 {
                "h4"@
            } else if n == 5 {
                "h5"@
            } else {
                "h6"@
            },
        ),
        PartV::BlockQuote => bare("blockquote"@),
        PartV::Indented => bare("pre"@),
        PartV::Fenced(lang) => if lang.len() == 0 {
            bare("pre"@)
        } else {
            dressed("pre"@, "class"@, "lang-"@ + lang)
        },
        PartV::OrderedList => bare("ol"@),
        PartV::BulletList => bare("ul"@),
        PartV::Item => bare("li"@),
        PartV::Emphasis => bare("em"@),
        PartV::Strong => bare("strong"@),
        PartV::Strikethrough => bare("s"@),
        PartV::Link(url) => dressed("a"@, "href"@, url),
        PartV::Image(url) => dressed("a"@, "href"@, url),
        PartV::Table => bare("table"@),
        PartV::TableHead => bare("tr"@),
        PartV::TableRow => bare("tr"@),
        PartV::TableCell => bare("td"@),
        PartV::Other => bare("span"@),
    }
}

/// The node with one more child.
pub open spec fn with_kid(n: NodeV, kid: DataV) -> NodeV {
    NodeV { kids: n.kids.push(kid), ..n }
}

/// The open nodes with one more child in the innermost.
pub open spec fn with_leaf(stack: Seq<NodeV>, kid: DataV) -> Seq<NodeV> {
    if stack.len() == 0 {
        stack
    } else {
        stack.drop_last().push(with_kid(stack.last(), kid))
    }
}

/// The open nodes once the innermost is closed. The outermost stays open.
pub open spec fn closed_one(stack: Seq<NodeV>) -> Seq<NodeV> {
    if stack.len() < 2 {
        stack
    } else {
        with_leaf(stack.drop_last(), sealed(stack.last()))
    }
}

/// The open nodes behind a mark.
pub open spec fn marked(stack: Seq<NodeV>, m: MarkV) -> Seq<NodeV> {
    match m {
        MarkV::Start(p) => stack.push(node_of(p)),
        MarkV::End => closed_one(stack),
        MarkV::Text(s) => with_leaf(stack, DataV::Text(s)),
        MarkV::Code(s) => with_leaf(
            stack,
            DataV::Array(
                seq![DataV::Text("code"@), DataV::Dict(Seq::empty()), DataV::Text(s)],
            ),
        ),
        MarkV::Html(s) => with_leaf(stack, DataV::Text(s)),
        MarkV::SoftBreak => with_leaf(stack, DataV::Text(" "@)),
        MarkV::HardBreak => with_leaf(stack, sealed(bare("br"@))),
        MarkV::Rule => with_leaf(stack, sealed(bare("hr"@))),
        MarkV::Other => stack,
    }
}

/// The open nodes behind the first `n` marks.
pub open spec fn marked_all(ms: Seq<MarkV>, n: int) -> Seq<NodeV>
    decreases n,
{
    if n <= 0 || n > ms.len() {
        seq![dressed("div"@, "class"@, "md"@)]
    } else {
        marked(marked_all(ms, n - 1), ms[n - 1])
    }
}

/// The outermost node once all are closed.
pub open spec fn root_node(stack: Seq<NodeV>) -> NodeV
    decreases stack.len(),
{
    if stack.len() == 0 {
        bare("div"@)
    } else if stack.len() == 1 {
        stack[0]
    } else {
        root_node(closed_one(stack))
    }
}

/// The tree of marks.
pub open spec fn hiccup_of(ms: Seq<MarkV>) -> DataV {
    sealed(root_node(marked_all(ms, ms.len() as int)))
}

struct Node {
    tag: &'static str,
    attrs: Vec<(Data, Data)>,
    kids: Vec<Data>,
}

impl View for Node {
    type V = NodeV;

    closed spec fn view(&self) -> NodeV {
        NodeV { tag: self.tag@, attrs: pairs_v(self.attrs), kids: items_v(self.kids) }
    }
}

spec fn nodes_v(s: Seq<Node>) -> Seq<NodeV> {
    s.map_values(|n: Node| n@)
}

fn text(s: &str) -> (r: Data)
    ensures
        r@ == DataV::Text(s@),
{
    Data::Text(s.to_owned())
}

fn bare_node(tag: &'static str) -> (r: Node)
    ensures
        r@ == bare(tag@),
{
    let r = Node { tag, attrs: Vec::new(), kids: Vec::new() };
    proof {
        lemma_pairs(r.attrs);
        lemma_items(r.kids);
        assert(pairs_v(r.attrs) =~= Seq::<(DataV, DataV)>::empty());
        assert(items_v(r.kids) =~= Seq::<DataV>::empty());
    }
    r
}

fn dressed_node(tag: &'static str, k: &str, v: &str) -> (r: Node)
    ensures
        r@ == dressed(tag@, k@, v@),
{
    let mut r: Node = bare_node(tag);
    let ghost before = r.attrs;
    let key: Data = text(k);
    let value: Data = text(v);
    r.attrs.push((key, value));
    proof {
        lemma_pairs_push(before, r.attrs, key, value);
        assert(pairs_v(r.attrs) =~= seq![(DataV::Text(k@), DataV::Text(v@))]);
    }
    r
}

fn seal(n: Node) -> (r: Data)
    ensures
        r@ == sealed(n@),
{
    let mut items: Vec<Data> = Vec::new();
    let ghost i0 = items;
    let ghost attrs = n.attrs;
    let ghost kids = n.kids;
    let t: Data = text(n.tag);
    items.push(t);
    let ghost i1 = items;
    let a: Data = Data::Dict(n.attrs);
    items.push(a);
    let ghost i2 = items;
    let mut rest: Vec<Data> = n.kids;
    items.append(&mut rest);
    proof {
        lemma_items(i0);
        lemma_pairs(attrs);
        lemma_items_push(i0, i1, t);
        lemma_items_push(i1, i2, a);
        lemma_items(i2);
        lemma_items(kids);
        lemma_items(items);
        let want = seq![DataV::Text(n@.tag), DataV::Dict(n@.attrs)] + n@.kids;
        assert(items_v(i2) =~= seq![DataV::Text(n@.tag), DataV::Dict(n@.attrs)]);
        assert forall|j: int| 0 <= j < items@.len() implies items_v(items)[j] == want[j] by {
            assert(items_v(items)[j] == items@[j]@);
            if j < 2 {
                assert(items_v(i2)[j] == i2@[j]@);
            } else {
                assert(items_v(kids)[j - 2] == kids@[j - 2]@);
            }
        }
        assert(items_v(items) =~= want);
    }
    Data::Array(items)
}

fn heading(n: u8) -> (r: &'static str)
    ensures
        bare(r@) == node_of(PartV::Heading(n)),
{
    if n == 1 {
        "h1"
    } else if n == 2 {
        "h2"
    } else if n == 3 {
        "h3"
    } else if n == 4 {
        "h4"
    } else if n == 5 {
        "h5"
    } else {
        "h6"
    }
}

fn open_node(p: &Part) -> (r: Node)
    ensures
        r@ == node_of(p@),
{
    match p {
        Part::Paragraph => bare_node("p"),
        Part::Heading(n) => bare_node(heading(*n)),
        Part::BlockQuote => bare_node("blockquote"),
        Part::Indented => bare_node("pre"),
        Part::Fenced(lang) => {
            if crate::auth::is_blank(lang.as_str()) {
                bare_node("pre")
            } else {
                let mut class: String = "lang-".to_owned();
                class.append(lang.as_str());
                dressed_node("pre", "class", class.as_str())
            }
        },
        Part::OrderedList => bare_node("ol"),
        Part::BulletList => bare_node("ul"),
        Part::Item => bare_node("li"),
        Part::Emphasis => bare_node("em"),
        Part::Strong => bare_node("strong"),
        Part::Strikethrough => bare_node("s"),
        Part::Link(url) => dressed_node("a", "href", url.as_str()),
        Part::Image(url) => dressed_node("a", "href", url.as_str()),
        Part::Table => bare_node("table"),
        Part::TableHead => bare_node("tr"),
        Part::TableRow => bare_node("tr"),
        Part::TableCell => bare_node("td"),
        Part::Other => bare_node("span"),
    }
}

fn push_leaf(stack: &mut Vec<Node>, kid: Data)
    ensures
        nodes_v(final(stack)@) == with_leaf(nodes_v(old(stack)@), kid@),
{
    let ghost before = stack@;
    match stack.pop() {
        None => {
            assert(nodes_v(stack@) =~= nodes_v(before));
        },
        Some(mut n) => {
            let ghost n0 = n;
            let ghost kids = n.kids;
            n.kids.push(kid);
            proof {
                lemma_items_push(kids, n.kids, kid);
                assert(n@ == with_kid(n0@, kid@));
            }
            stack.push(n);
            assert(nodes_v(stack@) =~= nodes_v(before).drop_last().push(n@));
        },
    }
}

fn close_one(stack: &mut Vec<Node>)
    ensures
        nodes_v(final(stack)@) == closed_one(nodes_v(old(stack)@)),
        final(stack)@.len() == if old(stack)@.len() < 2 {
            old(stack)@.len()
        } else {
            (old(stack)@.len() - 1) as nat
        },
{
    let ghost before = stack@;
    if stack.len() < 2 {
        return;
    }
    match stack.pop() {
        None => {},
        Some(n) => {
            let ghost nv = n@;
            let d: Data = seal(n);
            assert(nodes_v(stack@) =~= nodes_v(before).drop_last());
            let ghost mid = stack@;
            push_leaf(stack, d);
            assert(nodes_v(stack@).len() == nodes_v(mid).len());
        },
    }
}

fn code_node(s: &str) -> (r: Data)
    ensures
        r@ == DataV::Array(
            seq![DataV::Text("code"@), DataV::Dict(Seq::empty()), DataV::Text(s@)],
        ),
{
    let mut n: Node = bare_node("code");
    let ghost n0 = n;
    let ghost kids = n.kids;
    let t: Data = text(s);
    n.kids.push(t);
    proof {
        lemma_items_push(kids, n.kids, t);
        assert(n@ == with_kid(bare("code"@), DataV::Text(s@)));
        assert(seq![DataV::Text("code"@), DataV::Dict(Seq::empty())] + n@.kids =~= seq![
            DataV::Text("code"@),
            DataV::Dict(Seq::empty()),
            DataV::Text(s@),
        ]);
    }
    seal(n)
}

fn mark_one(stack: &mut Vec<Node>, m: &Mark)
    ensures
        nodes_v(final(stack)@) == marked(nodes_v(old(stack)@), m@),
{
    match m {
        Mark::Start(p) => {
            let ghost before = stack@;
            let n: Node = open_node(p);
            stack.push(n);
            assert(nodes_v(stack@) =~= nodes_v(before).push(n@));
        },
        Mark::End => close_one(stack),
        Mark::Text(s) => push_leaf(stack, text(s.as_str())),
        Mark::Code(s) => push_leaf(stack, code_node(s.as_str())),
        Mark::Html(s) => push_leaf(stack, text(s.as_str())),
        Mark::SoftBreak => push_leaf(stack, text(" ")),
        Mark::HardBreak => {
            let d: Data = seal(bare_node("br"));
            push_leaf(stack, d)
        },
        Mark::Rule => {
            let d: Data = seal(bare_node("hr"));
            push_leaf(stack, d)
        },
        Mark::Other => {},
    }
}

/// The tree of marks.
pub fn hiccup(marks: &Vec<Mark>) -> (r: Data)
    ensures
        r@ == hiccup_of(marks_v(marks@)),
{
    let ghost mv = marks_v(marks@);
    let mut stack: Vec<Node> = Vec::new();
    let root: Node = dressed_node("div", "class", "md");
    stack.push(root);
    assert(nodes_v(stack@) =~= seq![dressed("div"@, "class"@, "md"@)]);
    let mut i: usize = 0;
    while i < marks.len()
        invariant
            i <= marks@.len(),
            mv == marks_v(marks@),
            nodes_v(stack@) == marked_all(mv, i as int),
        decreases marks@.len() - i,
    {
        assert(mv[i as int] == marks@[i as int]@);
        mark_one(&mut stack, &marks[i]);
        i = i + 1;
    }
    while stack.len() > 1
        invariant
            root_node(nodes_v(stack@)) == root_node(marked_all(mv, mv.len() as int)),
        decreases stack@.len(),
    {
        close_one(&mut stack);
    }
    match stack.pop() {
        Some(n) => seal(n),
        None => seal(bare_node("div")),
    }
}

/// The tree of a text in markdown.
pub fn markdown_hiccup(src: &str) -> (r: Data)
    ensures
        r@ == hiccup_of(marks_of(EXTENSIONS, src@)),
{
    let marks: Vec<Mark> = parse_marks(EXTENSIONS, src);
    hiccup(&marks)
}

/// How many parts are open behind the first `n` marks, where `d` were open
/// before them.
pub open spec fn depth_after(ms: Seq<MarkV>, d: int, n: int) -> int
    decreases n,
{
    if n <= 0 || n > ms.len() {
        d
    } else {
        depth_after(ms, d, n - 1) + match ms[n - 1] {
            MarkV::Start(_) => 1int,
            MarkV::End => -1int,
            _ => 0int,
        }
    }
}

/// Every part that the marks open they close, and they close nothing else.
pub open spec fn balanced(ms: Seq<MarkV>) -> bool {
    &&& depth_after(ms, 0, ms.len() as int) == 0
    &&& forall|n: int| 0 <= n <= ms.len() ==> #[trigger] depth_after(ms, 0, n) >= 0
}

/// The nodes that the marks make, within the outermost node.
pub open spec fn nodes_of(ms: Seq<MarkV>) -> Seq<DataV> {
    match hiccup_of(ms) {
        DataV::Array(items) => items.skip(2),
        _ => Seq::empty(),
    }
}

/// The open nodes behind the first `n` marks, where `stack` was open before.
spec fn marked_from(stack: Seq<NodeV>, ms: Seq<MarkV>, n: int) -> Seq<NodeV>
    decreases n,
{
    if n <= 0 || n > ms.len() {
        stack
    } else {
        marked(marked_from(stack, ms, n - 1), ms[n - 1])
    }
}

/// The stack `a` upon the stack `lower`, of which the innermost node has the
/// children of the outermost node of `a` too.
spec fn upon(lower: Seq<NodeV>, a: Seq<NodeV>) -> Seq<NodeV> {
    lower.drop_last().push(
        NodeV { kids: lower.last().kids + a[0].kids, ..lower.last() },
    ) + a.skip(1)
}

proof fn lemma_marked_all(ms: Seq<MarkV>, n: int)
    requires
        0 <= n <= ms.len(),
    ensures
        marked_all(ms, n) == marked_from(seq![dressed("div"@, "class"@, "md"@)], ms, n),
    decreases n,
{
    if n > 0 {
        lemma_marked_all(ms, n - 1);
    }
}

/// What the marks do to an empty node they do upon any stack.
proof fn lemma_upon(lower: Seq<NodeV>, base: NodeV, ms: Seq<MarkV>, n: int)
    requires
        lower.len() > 0,
        base.kids.len() == 0,
        0 <= n <= ms.len(),
        forall|m: int| 0 <= m <= ms.len() ==> #[trigger] depth_after(ms, 0, m) >= 0,
    ensures
        marked_from(seq![base], ms, n).len() == 1 + depth_after(ms, 0, n),
        marked_from(seq![base], ms, n)[0].tag == base.tag,
        marked_from(seq![base], ms, n)[0].attrs == base.attrs,
        marked_from(lower, ms, n) == upon(lower, marked_from(seq![base], ms, n)),
    decreases n,
{
    if n > 0 {
        lemma_upon(lower, base, ms, n - 1);
        let a = marked_from(seq![base], ms, n - 1);
        let b = marked_from(seq![base], ms, n);
        let l = marked_from(lower, ms, n - 1);
        let m = ms[n - 1];
        assert(depth_after(ms, 0, n) >= 0);
        assert(depth_after(ms, 0, n - 1) >= 0);
        assert(l == upon(lower, a));
        if a.len() == 1 {
            assert(l.last() == (NodeV { kids: lower.last().kids + a[0].kids, ..lower.last() }));
        } else {
            assert(l.last() == a.last());
        }
        match m {
            MarkV::Start(p) => {
                assert(marked(l, m) =~= upon(lower, b));
            },
            MarkV::End => {
                let d = sealed(a.last());
                let (a1, l1) = (a.drop_last(), l.drop_last());
                assert(a1.len() >= 1);
                assert(l1 =~= upon(lower, a1));
                lemma_leaf_upon(lower, a1, d);
                assert(marked(l, m) =~= upon(lower, b));
            },
            MarkV::Text(s) => lemma_leaf_upon(lower, a, DataV::Text(s)),
            MarkV::Html(s) => lemma_leaf_upon(lower, a, DataV::Text(s)),
            MarkV::Code(s) => lemma_leaf_upon(
                lower,
                a,
                DataV::Array(
                    seq![DataV::Text("code"@), DataV::Dict(Seq::empty()), DataV::Text(s)],
                ),
            ),
            MarkV::SoftBreak => lemma_leaf_upon(lower, a, DataV::Text(" "@)),
            MarkV::HardBreak => lemma_leaf_upon(lower, a, sealed(bare("br"@))),
            MarkV::Rule => lemma_leaf_upon(lower, a, sealed(bare("hr"@))),
            MarkV::Other => {},
        }
    } else {
        let l = lower.last();
        assert(l.kids + base.kids =~= l.kids);
        assert(upon(lower, seq![base]) =~= lower);
    }
}

proof fn lemma_leaf_upon(lower: Seq<NodeV>, a: Seq<NodeV>, kid: DataV)
    requires
        lower.len() > 0,
        a.len() > 0,
    ensures
        with_leaf(upon(lower, a), kid) == upon(lower, with_leaf(a, kid)),
        with_leaf(a, kid).len() == a.len(),
        with_leaf(a, kid)[0].tag == a[0].tag,
        with_leaf(a, kid)[0].attrs == a[0].attrs,
{
    let l = lower.last();
    if a.len() == 1 {
        assert((l.kids + a[0].kids).push(kid) =~= l.kids + a[0].kids.push(kid));
    }
    assert(with_leaf(upon(lower, a), kid) =~= upon(lower, with_leaf(a, kid)));
}

proof fn lemma_from_concat(stack: Seq<NodeV>, a: Seq<MarkV>, b: Seq<MarkV>, n: int)
    requires
        0 <= n <= b.len(),
    ensures
        marked_from(stack, a + b, a.len() + n) == marked_from(
            marked_from(stack, a, a.len() as int),
            b,
            n,
        ),
    decreases n,
{
    if n > 0 {
        lemma_from_concat(stack, a, b, n - 1);
        assert((a + b)[a.len() + n - 1] == b[n - 1]);
    } else {
        lemma_from_prefix(stack, a, b, a.len() as int);
    }
}

proof fn lemma_from_prefix(stack: Seq<NodeV>, a: Seq<MarkV>, b: Seq<MarkV>, n: int)
    requires
        0 <= n <= a.len(),
    ensures
        marked_from(stack, a + b, n) == marked_from(stack, a, n),
    decreases n,
{
    if n > 0 {
        lemma_from_prefix(stack, a, b, n - 1);
        assert((a + b)[n - 1] == a[n - 1]);
    }
}

/// Balanced marks make their nodes as children of the node that is open.
proof fn lemma_balanced(lower: Seq<NodeV>, ms: Seq<MarkV>)
    requires
        lower.len() > 0,
        balanced(ms),
    ensures
        marked_from(lower, ms, ms.len() as int) == lower.drop_last().push(
            NodeV { kids: lower.last().kids + nodes_of(ms), ..lower.last() },
        ),
        hiccup_of(ms) == DataV::Array(
            seq![
                DataV::Text("div"@),
                DataV::Dict(seq![(DataV::Text("class"@), DataV::Text("md"@))]),
            ] + nodes_of(ms),
        ),
{
    let base = dressed("div"@, "class"@, "md"@);
    let n = ms.len() as int;
    lemma_marked_all(ms, n);
    lemma_upon(lower, base, ms, n);
    let a = marked_from(seq![base], ms, n);
    assert(a.len() == 1);
    assert(nodes_of(ms) =~= a[0].kids);
    assert(upon(lower, a) =~= lower.drop_last().push(
        NodeV { kids: lower.last().kids + a[0].kids, ..lower.last() },
    ));
}

/// The tree of balanced marks is a `div` of the class `md`, with the nodes of
/// the marks in it.
pub proof fn law_markdown_is_one_div(ms: Seq<MarkV>)
    requires
        balanced(ms),
    ensures
        hiccup_of(ms) == DataV::Array(
            seq![
                DataV::Text("div"@),
                DataV::Dict(seq![(DataV::Text("class"@), DataV::Text("md"@))]),
            ] + nodes_of(ms),
        ),
{
    lemma_balanced(seq![bare("div"@)], ms);
}

/// The nodes of marks upon marks are those of the first and then those of the
/// others.
pub proof fn law_nodes_follow_each_other(a: Seq<MarkV>, b: Seq<MarkV>)
    requires
        balanced(a),
        balanced(b),
        balanced(a + b),
    ensures
        nodes_of(a + b) == nodes_of(a) + nodes_of(b),
{
    let base = seq![bare("div"@)];
    let n = a.len() as int;
    lemma_balanced(base, a);
    lemma_balanced(base, a + b);
    let mid = marked_from(base, a, n);
    lemma_balanced(mid, b);
    lemma_from_concat(base, a, b, b.len() as int);
    let done = marked_from(base, a + b, (a + b).len() as int);
    assert(done.last().kids =~= nodes_of(a + b));
    assert(mid.last().kids =~= nodes_of(a));
    assert(marked_from(mid, b, b.len() as int).last().kids =~= nodes_of(a) + nodes_of(b));
}

/// The node of this name with these attributes.
pub open spec fn is_node(d: DataV, tag: Seq<char>, attrs: Seq<(Seq<char>, Seq<char>)>, kids: Seq<
    DataV,
>) -> bool {
    d == DataV::Array(
        seq![
            DataV::Text(tag),
            DataV::Dict(
                attrs.map_values(
                    |a: (Seq<char>, Seq<char>)| (DataV::Text(a.0), DataV::Text(a.1)),
                ),
            ),
        ] + kids,
    )
}

/// The marks `ms` within a part.
pub open spec fn within_part(p: PartV, ms: Seq<MarkV>) -> Seq<MarkV> {
    seq![MarkV::Start(p)] + ms + seq![MarkV::End]
}

proof fn lemma_depth_shift(ms: Seq<MarkV>, p: PartV, n: int)
    requires
        0 <= n <= ms.len(),
    ensures
        depth_after(within_part(p, ms), 0, n + 1) == depth_after(ms, 0, n) + 1,
    decreases n,
{
    let all = within_part(p, ms);
    assert(all[0] == MarkV::Start(p));
    if n > 0 {
        lemma_depth_shift(ms, p, n - 1);
        assert(all[n] == ms[n - 1]);
    } else {
        assert(depth_after(all, 0, 0) == 0);
    }
}

proof fn lemma_within(p: PartV, ms: Seq<MarkV>)
    requires
        balanced(ms),
    ensures
        balanced(within_part(p, ms)),
        nodes_of(within_part(p, ms)) == seq![
            sealed(NodeV { kids: nodes_of(ms), ..node_of(p) }),
        ],
{
    let all = within_part(p, ms);
    let n = ms.len() as int;
    assert(all.len() == n + 2);
    assert(all[n + 1] == MarkV::End);
    assert forall|m: int| 0 <= m <= all.len() implies #[trigger] depth_after(all, 0, m) >= 0 by {
        if 1 <= m <= n + 1 {
            lemma_depth_shift(ms, p, m - 1);
            assert(depth_after(ms, 0, m - 1) >= 0);
        }
        lemma_depth_shift(ms, p, n);
    }
    lemma_depth_shift(ms, p, n);
    assert(balanced(all));
    let base = seq![bare("div"@)];
    let open = base.push(node_of(p));
    let s1 = seq![MarkV::Start(p)];
    reveal_with_fuel(marked_from, 3);
    assert(marked_from(base, s1, 1) =~= open);
    lemma_from_concat(base, s1, ms, n);
    lemma_balanced(open, ms);
    let mid = marked_from(open, ms, n);
    assert(node_of(p).kids + nodes_of(ms) =~= nodes_of(ms));
    assert(mid =~= base.push(NodeV { kids: nodes_of(ms), ..node_of(p) }));
    lemma_from_concat(base, s1 + ms, seq![MarkV::End], 1);
    assert((s1 + ms).len() + 1 == all.len());
    let done = marked_from(base, all, all.len() as int);
    assert(done == marked_from(mid, seq![MarkV::End], 1));
    assert(seq![MarkV::End][0] == MarkV::End);
    assert(done == closed_one(mid));
    lemma_balanced(base, all);
    assert(done.last().kids =~= nodes_of(all));
    assert(done.last().kids =~= seq![sealed(NodeV { kids: nodes_of(ms), ..node_of(p) })]);
}

/// A link is a node `a` whose `href` is where the link leads, with the nodes of
/// what stands in the link in it; an image is shown as a link to it.
pub proof fn law_links_lead_where_they_say(url: Seq<char>, ms: Seq<MarkV>)
    requires
        balanced(ms),
    ensures
        nodes_of(within_part(PartV::Link(url), ms)).len() == 1,
        is_node(
            nodes_of(within_part(PartV::Link(url), ms))[0],
            "a"@,
            seq![("href"@, url)],
            nodes_of(ms),
        ),
        nodes_of(within_part(PartV::Image(url), ms)) == nodes_of(
            within_part(PartV::Link(url), ms),
        ),
{
    lemma_within(PartV::Link(url), ms);
    lemma_within(PartV::Image(url), ms);
    lemma_attrs("href"@, url);
}

proof fn lemma_attrs(k: Seq<char>, v: Seq<char>)
    ensures
        seq![(k, v)].map_values(
            |a: (Seq<char>, Seq<char>)| (DataV::Text(a.0), DataV::Text(a.1)),
        ) == seq![(DataV::Text(k), DataV::Text(v))],
        Seq::<(Seq<char>, Seq<char>)>::empty().map_values(
            |a: (Seq<char>, Seq<char>)| (DataV::Text(a.0), DataV::Text(a.1)),
        ) == Seq::<(DataV, DataV)>::empty(),
{
    assert(seq![(k, v)].map_values(
        |a: (Seq<char>, Seq<char>)| (DataV::Text(a.0), DataV::Text(a.1)),
    ) =~= seq![(DataV::Text(k), DataV::Text(v))]);
    assert(Seq::<(Seq<char>, Seq<char>)>::empty().map_values(
        |a: (Seq<char>, Seq<char>)| (DataV::Text(a.0), DataV::Text(a.1)),
    ) =~= Seq::<(DataV, DataV)>::empty());
}

/// The name of the node of a part that has no attributes.
pub open spec fn plain_name(p: PartV, tag: Seq<char>) -> bool {
    ||| p is Paragraph && tag == "p"@
    ||| p == PartV::Heading(1) && tag == "h1"@
    ||| p == PartV::Heading(2) && tag == "h2"@
    ||| p == PartV::Heading(3) && tag == "h3"@
    ||| p == PartV::Heading(4) && tag == "h4"@
    ||| p == PartV::Heading(5) && tag == "h5"@
    ||| p == PartV::Heading(6) && tag == "h6"@
    ||| p is BlockQuote && tag == "blockquote"@
    ||| p is Indented && tag == "pre"@
    ||| p == PartV::Fenced(Seq::empty()) && tag == "pre"@
    ||| p is OrderedList && tag == "ol"@
    ||| p is BulletList && tag == "ul"@
    ||| p is Item && tag == "li"@
    ||| p is Emphasis && tag == "em"@
    ||| p is Strong && tag == "strong"@
    ||| p is Strikethrough && tag == "s"@
    ||| p is Table && tag == "table"@
    ||| (p is TableHead || p is TableRow) && tag == "tr"@
    ||| p is TableCell && tag == "td"@
    ||| p is Other && tag == "span"@
}

/// A part becomes one node of its name, with the nodes of what stands in the
/// part in it.
pub proof fn law_parts_become_nodes(p: PartV, tag: Seq<char>, ms: Seq<MarkV>)
    requires
        balanced(ms),
        plain_name(p, tag),
    ensures
        nodes_of(within_part(p, ms)).len() == 1,
        is_node(nodes_of(within_part(p, ms))[0], tag, Seq::empty(), nodes_of(ms)),
{
    lemma_within(p, ms);
    lemma_attrs(tag, tag);
}

/// A block of code in a language has the language in its class.
pub proof fn law_code_names_its_language(lang: Seq<char>, ms: Seq<MarkV>)
    requires
        balanced(ms),
        lang.len() > 0,
    ensures
        nodes_of(within_part(PartV::Fenced(lang), ms)).len() == 1,
        is_node(
            nodes_of(within_part(PartV::Fenced(lang), ms))[0],
            "pre"@,
            seq![("class"@, "lang-"@ + lang)],
            nodes_of(ms),
        ),
{
    lemma_within(PartV::Fenced(lang), ms);
    lemma_attrs("class"@, "lang-"@ + lang);
}

/// Text is itself, and so is what looks like HTML; code is a node `code` around
/// its text; a soft break is a blank; and a hard break and a rule are nodes of
/// their own. No other mark makes a node.
pub proof fn law_leaves_are_shown(s: Seq<char>)
    ensures
        nodes_of(Seq::empty()) == Seq::<DataV>::empty(),
        nodes_of(seq![MarkV::Text(s)]) == seq![DataV::Text(s)],
        nodes_of(seq![MarkV::Html(s)]) == seq![DataV::Text(s)],
        nodes_of(seq![MarkV::SoftBreak]) == seq![DataV::Text(" "@)],
        nodes_of(seq![MarkV::Code(s)]).len() == 1,
        is_node(
            nodes_of(seq![MarkV::Code(s)])[0],
            "code"@,
            Seq::empty(),
            seq![DataV::Text(s)],
        ),
        nodes_of(seq![MarkV::HardBreak]).len() == 1,
        is_node(nodes_of(seq![MarkV::HardBreak])[0], "br"@, Seq::empty(), Seq::empty()),
        nodes_of(seq![MarkV::Rule]).len() == 1,
        is_node(nodes_of(seq![MarkV::Rule])[0], "hr"@, Seq::empty(), Seq::empty()),
        nodes_of(seq![MarkV::Other]) == Seq::<DataV>::empty(),
{
    lemma_attrs(s, s);
    lemma_one_mark(MarkV::Text(s));
    lemma_one_mark(MarkV::Html(s));
    lemma_one_mark(MarkV::SoftBreak);
    lemma_one_mark(MarkV::Code(s));
    lemma_one_mark(MarkV::HardBreak);
    lemma_one_mark(MarkV::Rule);
    lemma_one_mark(MarkV::Other);
    assert(nodes_of(Seq::empty()) =~= Seq::<DataV>::empty());
    let none = Seq::<DataV>::empty();
    assert(none.push(DataV::Text(s)) =~= seq![DataV::Text(s)]);
    assert(none.push(DataV::Text(" "@)) =~= seq![DataV::Text(" "@)]);
    assert(seq![DataV::Text("code"@), DataV::Dict(Seq::empty())] + seq![DataV::Text(s)] =~= seq![
        DataV::Text("code"@),
        DataV::Dict(Seq::empty()),
        DataV::Text(s),
    ]);
}

proof fn lemma_one_mark(m: MarkV)
    requires
        !(m is Start),
        !(m is End),
    ensures
        nodes_of(seq![m]) == marked(seq![bare("div"@)], m)[0].kids,
{
    let ms = seq![m];
    assert(ms[0] == m);
    reveal_with_fuel(depth_after, 3);
    assert forall|n: int| 0 <= n <= ms.len() implies #[trigger] depth_after(ms, 0, n) >= 0 by {
        assert(n == 0 || n == 1);
    }
    assert(balanced(ms));
    let base = seq![bare("div"@)];
    lemma_balanced(base, ms);
    reveal_with_fuel(marked_from, 3);
    assert(marked_from(base, ms, 1) == marked(base, m));
    assert(marked(base, m).last().kids =~= nodes_of(ms));
}

/// Marks within a part are balanced where they were, and a mark that opens and
/// closes nothing is.
pub proof fn law_parts_stay_balanced(p: PartV, ms: Seq<MarkV>, m: MarkV)
    requires
        balanced(ms),
        !(m is Start),
        !(m is End),
    ensures
        balanced(within_part(p, ms)),
        balanced(ms.push(m)),
        balanced(Seq::empty()),
{
    lemma_within(p, ms);
    let all = ms.push(m);
    assert forall|n: int| 0 <= n <= all.len() implies #[trigger] depth_after(all, 0, n) == depth_after(
        ms,
        0,
        if n < ms.len() { n } else { ms.len() as int },
    ) by {
        lemma_depth_push(ms, m, if n < ms.len() { n } else { ms.len() as int });
        if n == all.len() {
            assert(all[n - 1] == m);
        }
    }
}

proof fn lemma_depth_push(ms: Seq<MarkV>, m: MarkV, n: int)
    requires
        0 <= n <= ms.len(),
    ensures
        depth_after(ms.push(m), 0, n) == depth_after(ms, 0, n),
    decreases n,
{
    if n > 0 {
        lemma_depth_push(ms, m, n - 1);
        assert(ms.push(m)[n - 1] == ms[n - 1]);
    }
}

} // verus!
