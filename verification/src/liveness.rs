//! What a region of code references, and where its placement marks stand.

use crate::ast::{
    arms_v, exprs_v, fields_v, lemma_arms, lemma_exprs, lemma_fields, lemma_stmts, stmts_v,
    CastTarget, CastTargetV, Expr, ExprV, MatchArm, MatchArmV, Side, Stmt, StmtV,
};
use crate::names::NameSet;
use vstd::prelude::*;
use vstd::string::*;

verus! {

/// The identifiers that `e` references.
pub open spec fn refs_of_expr(e: ExprV) -> Set<Seq<char>>
    decreases e, 0int, 0int,
{
    match e {
        ExprV::Ident(n) => Set::empty().insert(n),
        ExprV::Field(b, _) => refs_of_expr(*b),
        ExprV::Index(a, b) => refs_of_expr(*a).union(refs_of_expr(*b)),
        ExprV::Call(f, args) => refs_of_expr(*f).union(refs_of_exprs(args, args.len() as int)),
        ExprV::Unary(_, a) => refs_of_expr(*a),
        ExprV::Binary(_, a, b) => refs_of_expr(*a).union(refs_of_expr(*b)),
        ExprV::Table(fs) => refs_of_fields(fs, fs.len() as int),
        ExprV::Array(xs) => refs_of_exprs(xs, xs.len() as int),
        ExprV::Fn(_, body) => refs_of(body, 0, body.len() as int),
        _ => Set::empty(),
    }
}

/// The identifiers that the first `n` of `es` reference.
pub open spec fn refs_of_exprs(es: Seq<ExprV>, n: int) -> Set<Seq<char>>
    decreases es, 1int, n,
{
    if n <= 0 || n > es.len() {
        Set::empty()
    } else {
        refs_of_exprs(es, n - 1).union(refs_of_expr(es[n - 1]))
    }
}

/// The identifiers that the first `n` of `fs` reference.
pub open spec fn refs_of_fields(fs: Seq<(Seq<char>, ExprV)>, n: int) -> Set<Seq<char>>
    decreases fs, 1int, n,
{
    if n <= 0 || n > fs.len() {
        Set::empty()
    } else {
        refs_of_fields(fs, n - 1).union(refs_of_expr(fs[n - 1].1))
    }
}

/// The identifiers that the statements of `ss` from `from` up to `to`
/// reference.
pub open spec fn refs_of(ss: Seq<StmtV>, from: int, to: int) -> Set<Seq<char>>
    decreases ss, 1int, to - from,
{
    if from < 0 || to <= from || to > ss.len() {
        Set::empty()
    } else {
        refs_of(ss, from, to - 1).union(refs_of_stmt(ss[to - 1]))
    }
}

/// The identifiers that the bodies of the first `n` arms reference.
pub open spec fn refs_of_arms(arms: Seq<MatchArmV>, n: int) -> Set<Seq<char>>
    decreases arms, 1int, n,
{
    if n <= 0 || n > arms.len() {
        Set::empty()
    } else {
        refs_of_arms(arms, n - 1).union(
            refs_of(arms[n - 1].body, 0, arms[n - 1].body.len() as int),
        )
    }
}

/// The identifiers that `s` references.
pub open spec fn refs_of_stmt(s: StmtV) -> Set<Seq<char>>
    decreases s, 0int, 0int,
{
    match s {
        StmtV::Let(_, e) => refs_of_expr(e),
        StmtV::Assign(l, r) => refs_of_expr(l).union(refs_of_expr(r)),
        StmtV::Return(e) => match e {
            Some(e) => refs_of_expr(e),
            None => Set::empty(),
        },
        StmtV::If(c, t, e) => refs_of_expr(c).union(refs_of(t, 0, t.len() as int)).union(
            match e {
                Some(e) => refs_of(e, 0, e.len() as int),
                None => Set::empty(),
            },
        ),
        StmtV::Match(subject, arms) => refs_of_expr(subject).union(
            refs_of_arms(arms, arms.len() as int),
        ),
        StmtV::For(_, _, e, body) => refs_of_expr(e).union(refs_of(body, 0, body.len() as int)),
        StmtV::While(c, body) => refs_of_expr(c).union(refs_of(body, 0, body.len() as int)),
        StmtV::Mark(_) => Set::empty(),
        StmtV::Cast(t, body) => (match t {
            CastTargetV::Session(e) => refs_of_expr(e),
            CastTargetV::User(e) => refs_of_expr(e),
            _ => Set::empty(),
        }).union(refs_of(body, 0, body.len() as int)),
        StmtV::Spawn(e) => refs_of_expr(e),
        StmtV::Expr(e) => refs_of_expr(e),
    }
}

/// Adds what `e` references.
pub fn refs_expr(e: &Expr, out: &mut NameSet)
    requires
        old(out).wf(),
    ensures
        final(out).wf(),
        final(out)@ == old(out)@.union(refs_of_expr(e@)),
    decreases e, 0int, 0int,
{
    let ghost start = out@;
    match e {
        Expr::Ident(n) => {
            out.insert(n.as_str());
        },
        Expr::Field(b, _) => {
            refs_expr(b, out);
        },
        Expr::Index(a, b) => {
            refs_expr(a, out);
            refs_expr(b, out);
        },
        Expr::Call(f, args) => {
            refs_expr(f, out);
            refs_exprs(args, out);
        },
        Expr::Unary(_, a) => {
            refs_expr(a, out);
        },
        Expr::Binary(_, a, b) => {
            refs_expr(a, out);
            refs_expr(b, out);
        },
        Expr::Table(fs) => {
            refs_fields(fs, out);
        },
        Expr::Array(xs) => {
            refs_exprs(xs, out);
        },
        Expr::Fn(_, body) => {
            refs_stmts(body, 0, body.len(), out);
            proof {
                lemma_stmts(*body);
            }
        },
        _ => {},
    }
    assert(out@ =~= start.union(refs_of_expr(e@)));
}

fn refs_exprs(es: &Vec<Expr>, out: &mut NameSet)
    requires
        old(out).wf(),
    ensures
        final(out).wf(),
        final(out)@ == old(out)@.union(refs_of_exprs(exprs_v(*es), es@.len() as int)),
        exprs_v(*es).len() == es@.len(),
    decreases es, 1int, 0int,
{
    let ghost start = out@;
    let mut i: usize = 0;
    proof {
        lemma_exprs(*es);
        assert(out@ =~= start.union(refs_of_exprs(exprs_v(*es), 0)));
    }
    while i < es.len()
        invariant
            i <= es@.len(),
            out.wf(),
            exprs_v(*es).len() == es@.len(),
            forall|j: int| 0 <= j < es@.len() ==> #[trigger] exprs_v(*es)[j] == es@[j]@,
            out@ == start.union(refs_of_exprs(exprs_v(*es), i as int)),
        decreases es@.len() - i,
    {
        refs_expr(&es[i], out);
        proof {
            let f = exprs_v(*es)[i as int];
            assert(out@ =~= start.union(refs_of_exprs(exprs_v(*es), i + 1)));
        }
        i = i + 1;
    }
}

fn refs_fields(v: &Vec<(String, Expr)>, out: &mut NameSet)
    requires
        old(out).wf(),
    ensures
        final(out).wf(),
        final(out)@ == old(out)@.union(refs_of_fields(fields_v(*v), v@.len() as int)),
        fields_v(*v).len() == v@.len(),
    decreases v, 1int, 0int,
{
    let ghost start = out@;
    let mut i: usize = 0;
    proof {
        lemma_fields(*v);
        assert(out@ =~= start.union(refs_of_fields(fields_v(*v), 0)));
    }
    while i < v.len()
        invariant
            i <= v@.len(),
            out.wf(),
            fields_v(*v).len() == v@.len(),
            forall|j: int| 0 <= j < v@.len() ==> #[trigger] fields_v(*v)[j] == (v@[j].0@, v@[j].1@),
            out@ == start.union(refs_of_fields(fields_v(*v), i as int)),
        decreases v@.len() - i,
    {
        refs_expr(&v[i].1, out);
        proof {
            let f = fields_v(*v)[i as int];
            assert(out@ =~= start.union(refs_of_fields(fields_v(*v), i + 1)));
        }
        i = i + 1;
    }
}

fn refs_arms(v: &Vec<MatchArm>, out: &mut NameSet)
    requires
        old(out).wf(),
    ensures
        final(out).wf(),
        final(out)@ == old(out)@.union(refs_of_arms(arms_v(*v), v@.len() as int)),
        arms_v(*v).len() == v@.len(),
    decreases v, 1int, 0int,
{
    let ghost start = out@;
    let mut i: usize = 0;
    proof {
        lemma_arms(*v);
        assert(out@ =~= start.union(refs_of_arms(arms_v(*v), 0)));
    }
    while i < v.len()
        invariant
            i <= v@.len(),
            out.wf(),
            arms_v(*v).len() == v@.len(),
            forall|j: int| 0 <= j < v@.len() ==> #[trigger] arms_v(*v)[j] == v@[j]@,
            out@ == start.union(refs_of_arms(arms_v(*v), i as int)),
        decreases v@.len() - i,
    {
        refs_stmts(&v[i].body, 0, v[i].body.len(), out);
        proof {
            let f = arms_v(*v)[i as int];
            lemma_stmts(v@[i as int].body);
            assert(out@ =~= start.union(refs_of_arms(arms_v(*v), i + 1)));
        }
        i = i + 1;
    }
}

/// Adds what the statements of `ss` from `from` up to `to` reference.
pub fn refs_stmts(ss: &Vec<Stmt>, from: usize, to: usize, out: &mut NameSet)
    requires
        old(out).wf(),
        from <= to <= ss@.len(),
    ensures
        final(out).wf(),
        final(out)@ == old(out)@.union(refs_of(stmts_v(*ss), from as int, to as int)),
    decreases ss, 1int, 0int,
{
    let ghost start = out@;
    let mut i: usize = from;
    proof {
        lemma_stmts(*ss);
        assert(out@ =~= start.union(refs_of(stmts_v(*ss), from as int, from as int)));
    }
    while i < to
        invariant
            from <= i <= to <= ss@.len(),
            out.wf(),
            stmts_v(*ss).len() == ss@.len(),
            forall|j: int| 0 <= j < ss@.len() ==> #[trigger] stmts_v(*ss)[j] == ss@[j]@,
            out@ == start.union(refs_of(stmts_v(*ss), from as int, i as int)),
        decreases to - i,
    {
        refs_stmt(&ss[i], out);
        proof {
            let f = stmts_v(*ss)[i as int];
            assert(out@ =~= start.union(refs_of(stmts_v(*ss), from as int, i + 1)));
        }
        i = i + 1;
    }
}

fn refs_stmt(s: &Stmt, out: &mut NameSet)
    requires
        old(out).wf(),
    ensures
        final(out).wf(),
        final(out)@ == old(out)@.union(refs_of_stmt(s@)),
    decreases s, 0int, 0int,
{
    let ghost start = out@;
    match s {
        Stmt::Let(_, e) => {
            refs_expr(e, out);
        },
        Stmt::Assign(l, r) => {
            refs_expr(l, out);
            refs_expr(r, out);
        },
        Stmt::Return(e) => {
            if let Some(e) = e {
                refs_expr(e, out);
            }
        },
        Stmt::If(c, t, e) => {
            refs_expr(c, out);
            refs_stmts(t, 0, t.len(), out);
            proof {
                lemma_stmts(*t);
            }
            if let Some(e) = e {
                refs_stmts(e, 0, e.len(), out);
                proof {
                    lemma_stmts(*e);
                }
            }
        },
        Stmt::Match(subject, arms) => {
            refs_expr(subject, out);
            refs_arms(arms, out);
        },
        Stmt::For(_, _, e, body) => {
            refs_expr(e, out);
            refs_stmts(body, 0, body.len(), out);
            proof {
                lemma_stmts(*body);
            }
        },
        Stmt::While(c, body) => {
            refs_expr(c, out);
            refs_stmts(body, 0, body.len(), out);
            proof {
                lemma_stmts(*body);
            }
        },
        Stmt::Mark(_) => {},
        Stmt::Cast(t, body) => {
            match t {
                CastTarget::Session(e) => {
                    refs_expr(e, out);
                },
                CastTarget::User(e) => {
                    refs_expr(e, out);
                },
                _ => {},
            }
            refs_stmts(body, 0, body.len(), out);
            proof {
                lemma_stmts(*body);
            }
        },
        Stmt::Spawn(e) => {
            refs_expr(e, out);
        },
        Stmt::Expr(e) => {
            refs_expr(e, out);
        },
    }
    assert(out@ =~= start.union(refs_of_stmt(s@)));
}

/// The names that `let` statements among those from `from` up to `to` bind.
pub open spec fn lets_of(ss: Seq<StmtV>, from: int, to: int) -> Set<Seq<char>>
    decreases to - from,
{
    if to <= from {
        Set::empty()
    } else {
        match ss[to - 1] {
            StmtV::Let(n, _) => lets_of(ss, from, to - 1).insert(n),
            _ => lets_of(ss, from, to - 1),
        }
    }
}

/// Adds the names that `let` statements among those from `from` up to `to`
/// bind.
pub fn toplevel_lets(ss: &Vec<Stmt>, from: usize, to: usize, out: &mut NameSet)
    requires
        old(out).wf(),
        from <= to <= ss@.len(),
    ensures
        final(out).wf(),
        final(out)@ == old(out)@.union(lets_of(stmts_v(*ss), from as int, to as int)),
{
    let ghost start = out@;
    let mut i: usize = from;
    proof {
        lemma_stmts(*ss);
        assert(out@ =~= start.union(lets_of(stmts_v(*ss), from as int, from as int)));
    }
    while i < to
        invariant
            from <= i <= to <= ss@.len(),
            out.wf(),
            stmts_v(*ss).len() == ss@.len(),
            forall|j: int| 0 <= j < ss@.len() ==> #[trigger] stmts_v(*ss)[j] == ss@[j]@,
            out@ == start.union(lets_of(stmts_v(*ss), from as int, i as int)),
        decreases to - i,
    {
        if let Stmt::Let(n, _) = &ss[i] {
            out.insert(n.as_str());
        }
        proof {
            let f = stmts_v(*ss)[i as int];
            assert(out@ =~= start.union(lets_of(stmts_v(*ss), from as int, i + 1)));
        }
        i = i + 1;
    }
}

pub open spec fn in_branches() -> Seq<char> {
    "branches; marks must be at the top level of a function body"@
}

pub open spec fn in_arms() -> Seq<char> {
    "match arms; marks must be at the top level of a function body"@
}

pub open spec fn in_loops() -> Seq<char> {
    "loop bodies; marks must be at the top level of a function body"@
}

pub open spec fn in_casts() -> Seq<char> {
    "cast bodies"@
}

/// Some statement of `ss` is a mark.
pub open spec fn has_mark(ss: Seq<StmtV>) -> bool {
    exists|i: int| 0 <= i < ss.len() && (#[trigger] ss[i]) is Mark
}

/// Why the marks in `body`, which is of the kind `what`, are refused: it holds
/// one, or something in it does.
pub open spec fn refused(body: Seq<StmtV>, what: Seq<char>) -> Option<Seq<char>>
    decreases body, 2int, 0int,
{
    if has_mark(body) {
        Some("v0: placement marks are not allowed inside "@ + what)
    } else {
        nested_mark(body, 0)
    }
}

/// Why the marks below the top level of `ss`, from statement `i` on, are
/// refused.
pub open spec fn nested_mark(ss: Seq<StmtV>, i: int) -> Option<Seq<char>>
    decreases ss, 1int, ss.len() - i,
{
    if i < 0 || i >= ss.len() {
        None
    } else {
        match mark_under(ss[i]) {
            Some(m) => Some(m),
            None => nested_mark(ss, i + 1),
        }
    }
}

/// Why the marks below `s` are refused.
pub open spec fn mark_under(s: StmtV) -> Option<Seq<char>>
    decreases s, 0int, 0int,
{
    match s {
        StmtV::If(_, t, e) => match refused(t, in_branches()) {
            Some(m) => Some(m),
            None => match e {
                Some(e) => refused(e, in_branches()),
                None => None,
            },
        },
        StmtV::Match(_, arms) => mark_in_arms(arms, 0),
        StmtV::For(_, _, _, body) => refused(body, in_loops()),
        StmtV::While(_, body) => refused(body, in_loops()),
        StmtV::Cast(_, body) => refused(body, in_casts()),
        _ => None,
    }
}

/// Why the marks in the arms from `i` on are refused.
pub open spec fn mark_in_arms(arms: Seq<MatchArmV>, i: int) -> Option<Seq<char>>
    decreases arms, 1int, arms.len() - i,
{
    if i < 0 || i >= arms.len() {
        None
    } else {
        match refused(arms[i].body, in_arms()) {
            Some(m) => Some(m),
            None => mark_in_arms(arms, i + 1),
        }
    }
}

/// A check that either passes or gives a message.
pub open spec fn told(r: Result<(), String>, s: Option<Seq<char>>) -> bool {
    match (r, s) {
        (Ok(_), None) => true,
        (Err(m), Some(w)) => m@ == w,
        _ => false,
    }
}

fn reject(body: &Vec<Stmt>, what: &str) -> (r: Result<(), String>)
    ensures
        told(r, refused(stmts_v(*body), what@)),
    decreases body, 2int, 0int,
{
    proof {
        lemma_stmts(*body);
    }
    let mut i: usize = 0;
    while i < body.len()
        invariant
            i <= body@.len(),
            stmts_v(*body).len() == body@.len(),
            forall|j: int| 0 <= j < body@.len() ==> #[trigger] stmts_v(*body)[j] == body@[j]@,
            forall|j: int| 0 <= j < i ==> !((#[trigger] stmts_v(*body)[j]) is Mark),
        decreases body@.len() - i,
    {
        if let Stmt::Mark(_) = &body[i] {
            assert(stmts_v(*body)[i as int] is Mark);
            let mut m: String = "v0: placement marks are not allowed inside ".to_owned();
            m.append(what);
            return Err(m);
        }
        i = i + 1;
    }
    check_no_nested_marks(body)
}

/// Marks are only legal at the top level of a (function or lambda) body, not
/// in branches, loops or cast bodies. Lambda bodies are separate flow bodies
/// and are checked when the lambda itself is compiled.
pub fn check_no_nested_marks(ss: &Vec<Stmt>) -> (r: Result<(), String>)
    ensures
        told(r, nested_mark(stmts_v(*ss), 0)),
    decreases ss, 1int, 0int,
{
    proof {
        lemma_stmts(*ss);
    }
    let mut i: usize = 0;
    while i < ss.len()
        invariant
            i <= ss@.len(),
            stmts_v(*ss).len() == ss@.len(),
            forall|j: int| 0 <= j < ss@.len() ==> #[trigger] stmts_v(*ss)[j] == ss@[j]@,
            nested_mark(stmts_v(*ss), 0) == nested_mark(stmts_v(*ss), i as int),
        decreases ss@.len() - i,
    {
        check_stmt(&ss[i])?;
        assert(stmts_v(*ss)[i as int] == ss@[i as int]@);
        i = i + 1;
    }
    Ok(())
}

fn check_arms(arms: &Vec<MatchArm>) -> (r: Result<(), String>)
    ensures
        told(r, mark_in_arms(arms_v(*arms), 0)),
    decreases arms, 1int, 0int,
{
    proof {
        lemma_arms(*arms);
    }
    let mut i: usize = 0;
    while i < arms.len()
        invariant
            i <= arms@.len(),
            arms_v(*arms).len() == arms@.len(),
            forall|j: int| 0 <= j < arms@.len() ==> #[trigger] arms_v(*arms)[j] == arms@[j]@,
            mark_in_arms(arms_v(*arms), 0) == mark_in_arms(arms_v(*arms), i as int),
        decreases arms@.len() - i,
    {
        assert(arms_v(*arms)[i as int] == arms@[i as int]@);
        reject(&arms[i].body, "match arms; marks must be at the top level of a function body")?;
        i = i + 1;
    }
    Ok(())
}

fn check_stmt(s: &Stmt) -> (r: Result<(), String>)
    ensures
        told(r, mark_under(s@)),
    decreases s, 0int, 0int,
{
    match s {
        Stmt::If(_, t, e) => {
            reject(t, "branches; marks must be at the top level of a function body")?;
            if let Some(e) = e {
                reject(e, "branches; marks must be at the top level of a function body")?;
            }
            Ok(())
        },
        Stmt::Match(_, arms) => {
            check_arms(arms)
        },
        Stmt::For(_, _, _, body) => reject(
            body,
            "loop bodies; marks must be at the top level of a function body",
        ),
        Stmt::While(_, body) => reject(
            body,
            "loop bodies; marks must be at the top level of a function body",
        ),
        Stmt::Cast(_, body) => reject(body, "cast bodies"),
        _ => Ok(()),
    }
}

/// A run of statements between marks, and the side it executes on.
#[derive(Clone, Copy, Debug)]
pub struct Segment {
    pub side: Side,
    pub from: usize,
    pub to: usize,
}

pub struct SegmentV {
    pub side: Side,
    pub from: int,
    pub to: int,
}

impl View for Segment {
    type V = SegmentV;

    open spec fn view(&self) -> SegmentV {
        SegmentV { side: self.side, from: self.from as int, to: self.to as int }
    }
}

pub open spec fn segments_v(v: Seq<Segment>) -> Seq<SegmentV> {
    v.map_values(|s: Segment| s@)
}

/// The segments of `body` from statement `i` on, where one on `side` began at
/// `from`; none if a mark moves to the side that already executes.
pub open spec fn split_from(body: Seq<StmtV>, i: int, side: Side, from: int) -> Option<
    Seq<SegmentV>,
>
    decreases body.len() - i,
{
    if i < 0 || i >= body.len() {
        Some(seq![SegmentV { side, from, to: i }])
    } else {
        match body[i] {
            StmtV::Mark(next) => if next == side {
                None
            } else {
                match split_from(body, i + 1, next, i + 1) {
                    Some(rest) => Some(seq![SegmentV { side, from, to: i }] + rest),
                    None => None,
                }
            },
            _ => split_from(body, i + 1, side, from),
        }
    }
}

/// The segments of a flow body. Flows begin on the browser.
pub open spec fn segments_of(body: Seq<StmtV>) -> Option<Seq<SegmentV>> {
    split_from(body, 0, Side::Browser, 0)
}

/// Split a flow body at its top-level marks.
pub fn split_segments(body: &Vec<Stmt>, name: &str) -> (r: Result<Vec<Segment>, String>)
    ensures
        match (r, segments_of(stmts_v(*body))) {
            (Ok(v), Some(s)) => {
                &&& segments_v(v@) == s
                &&& v@.len() >= 1
                &&& forall|k: int|
                    0 <= k < v@.len() ==> (#[trigger] v@[k]).from <= v@[k].to <= body@.len()
            },
            (Err(m), None) => m@ == name@ + ": mark to the side already executing"@,
            _ => false,
        },
{
    proof {
        lemma_stmts(*body);
    }
    let mut out: Vec<Segment> = Vec::new();
    let mut side: Side = Side::Browser;
    let mut from: usize = 0;
    let mut i: usize = 0;
    proof {
        if let Some(rest) = segments_of(stmts_v(*body)) {
            assert(segments_v(out@) + rest =~= rest);
        }
    }
    while i < body.len()
        invariant
            from <= i <= body@.len(),
            stmts_v(*body).len() == body@.len(),
            forall|j: int| 0 <= j < body@.len() ==> #[trigger] stmts_v(*body)[j] == body@[j]@,
            forall|k: int| 0 <= k < out@.len() ==> (#[trigger] out@[k]).from <= out@[k].to <= body@.len(),
            segments_of(stmts_v(*body)) == (match split_from(
                stmts_v(*body),
                i as int,
                side,
                from as int,
            ) {
                Some(rest) => Some(segments_v(out@) + rest),
                None => None,
            }),
        decreases body@.len() - i,
    {
        assert(stmts_v(*body)[i as int] == body@[i as int]@);
        if let Stmt::Mark(next) = &body[i] {
            if *next == side {
                let mut m: String = name.to_owned();
                m.append(": mark to the side already executing");
                return Err(m);
            }
            let ghost before = out@;
            let s = Segment { side, from, to: i };
            out.push(s);
            proof {
                if let Some(rest) = split_from(stmts_v(*body), i + 1, *next, i + 1) {
                    assert(segments_v(before) + (seq![s@] + rest) =~= segments_v(out@) + rest);
                }
            }
            side = *next;
            from = i + 1;
        }
        i = i + 1;
    }
    let ghost before = out@;
    let s = Segment { side, from, to: i };
    out.push(s);
    assert(segments_v(before) + seq![s@] =~= segments_v(out@));
    Ok(out)
}

/// The body holds no mark at all.
pub open spec fn unmarked(body: Seq<StmtV>) -> bool {
    !has_mark(body) && nested_mark(body, 0) is None
}

/// Marks stand at the top level only: where a body passes, the blocks of its
/// statements hold no mark, at any depth.
pub proof fn law_marks_at_the_top_only(body: Seq<StmtV>, i: int)
    requires
        nested_mark(body, 0) is None,
        0 <= i < body.len(),
    ensures
        match body[i] {
            StmtV::If(_, t, e) => unmarked(t) && match e {
                Some(e) => unmarked(e),
                None => true,
            },
            StmtV::Match(_, arms) => forall|j: int|
                0 <= j < arms.len() ==> unmarked((#[trigger] arms[j]).body),
            StmtV::For(_, _, _, b) => unmarked(b),
            StmtV::While(_, b) => unmarked(b),
            StmtV::Cast(_, b) => unmarked(b),
            _ => true,
        },
{
    lemma_none_from(body, 0, i);
    if let StmtV::Match(_, arms) = body[i] {
        assert forall|j: int| 0 <= j < arms.len() implies unmarked((#[trigger] arms[j]).body) by {
            lemma_no_arm(arms, 0, j);
        }
    }
}

proof fn lemma_none_from(body: Seq<StmtV>, from: int, i: int)
    requires
        0 <= from <= i < body.len(),
        nested_mark(body, from) is None,
    ensures
        mark_under(body[i]) is None,
    decreases i - from,
{
    if from < i {
        lemma_none_from(body, from + 1, i);
    }
}

proof fn lemma_no_arm(arms: Seq<MatchArmV>, from: int, j: int)
    requires
        0 <= from <= j < arms.len(),
        mark_in_arms(arms, from) is None,
    ensures
        refused(arms[j].body, in_arms()) is None,
    decreases j - from,
{
    if from < j {
        lemma_no_arm(arms, from + 1, j);
    }
}

/// The segments are those of the statements from `from` on, where one on `side`
/// began: each but the last ends at the mark that moves to the side of the next,
/// which is the other side, and the next begins behind it; and the last ends the
/// body.
pub open spec fn segmented(body: Seq<StmtV>, segs: Seq<SegmentV>, side: Side, from: int) -> bool {
    &&& segs.len() > 0
    &&& segs[0].side == side
    &&& segs[0].from == from
    &&& segs.last().to == body.len()
    &&& forall|k: int| 0 <= k < segs.len() ==> (#[trigger] segs[k]).from <= segs[k].to <= body.len()
    &&& forall|k: int| 0 <= k < segs.len() - 1 ==> #[trigger] followed(body, segs, k)
}

/// Segment `k` ends at the mark that moves to the side of the next, the other
/// one, and the next begins behind it.
pub open spec fn followed(body: Seq<StmtV>, segs: Seq<SegmentV>, k: int) -> bool {
    &&& segs[k].to < body.len()
    &&& body[segs[k].to] == StmtV::Mark(segs[k + 1].side)
    &&& segs[k + 1].from == segs[k].to + 1
    &&& segs[k + 1].side != segs[k].side
}

proof fn lemma_segmented(body: Seq<StmtV>, i: int, side: Side, from: int)
    requires
        0 <= from <= i <= body.len(),
        split_from(body, i, side, from) is Some,
    ensures
        segmented(body, split_from(body, i, side, from)->Some_0, side, from),
    decreases body.len() - i,
{
    let segs = split_from(body, i, side, from)->Some_0;
    if i < body.len() {
        if let StmtV::Mark(next) = body[i] {
            lemma_segmented(body, i + 1, next, i + 1);
            let rest = split_from(body, i + 1, next, i + 1)->Some_0;
            assert forall|k: int| 0 <= k < segs.len() implies (#[trigger] segs[k]).from
                <= segs[k].to <= body.len() by {
                if k > 0 {
                    assert(segs[k] == rest[k - 1]);
                }
            }
            assert forall|k: int| 0 <= k < segs.len() - 1 implies #[trigger] followed(
                body,
                segs,
                k,
            ) by {
                assert(segs[k + 1] == rest[k]);
                if k > 0 {
                    assert(segs[k] == rest[k - 1]);
                    assert(followed(body, rest, k - 1));
                }
            }
            assert(segs.last() == rest.last());
        } else {
            lemma_segmented(body, i + 1, side, from);
        }
    }
}

/// A flow body is split at its marks: the first segment is on the browser, each
/// mark moves to the other side, and every statement but the marks is in one
/// segment.
pub proof fn law_split_at_marks(body: Seq<StmtV>)
    requires
        segments_of(body) is Some,
    ensures
        segmented(body, segments_of(body)->Some_0, Side::Browser, 0),
{
    lemma_segmented(body, 0, Side::Browser, 0);
}

/// What is referenced from a later statement on is referenced from an earlier
/// one on.
pub proof fn lemma_refs_from(ss: Seq<StmtV>, a: int, b: int, to: int)
    requires
        0 <= a <= b,
        to <= ss.len(),
    ensures
        refs_of(ss, b, to).subset_of(refs_of(ss, a, to)),
    decreases to - b,
{
    if to > b {
        lemma_refs_from(ss, a, b, to - 1);
    }
}

} // verus!
