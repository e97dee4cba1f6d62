//! What a query would read, and at what cost.

use crate::error::{query_error, Error, ErrorV};
use crate::float::{FactV, FloatTable};
use crate::nav::{
    lemma_navs, nav_label, nav_label_of, navs_v, pred_label, pred_label_of, value_label,
    value_label_of, Expr, ExprV, Nav, NavV, Predicate, PredicateV, Query, QueryV, Relation,
};
use crate::shape::{collects, element_of, field_in, Shape, ShapeV};
use crate::text::{debug_of_text, debug_text, dec, dec_u64, texts};
use vstd::prelude::*;
use vstd::string::*;

verus! {

/// The class of a read: a point get is no scan, and a scan is never a point
/// get.
#[derive(Clone, Copy, Debug, PartialEq, Eq, Structural)]
pub enum CostClass {
    Point,
    Bounded,
    Scan,
}

/// The place of a class in the order of cost.
pub open spec fn cost(c: CostClass) -> int {
    match c {
        CostClass::Point => 0,
        CostClass::Bounded => 1,
        CostClass::Scan => 2,
    }
}

/// The name of a class.
pub open spec fn class_name(c: CostClass) -> Seq<char> {
    match c {
        CostClass::Point => "POINT"@,
        CostClass::Bounded => "BOUNDED"@,
        CostClass::Scan => "SCAN"@,
    }
}

/// The costlier of two classes.
pub open spec fn costlier(a: CostClass, b: CostClass) -> CostClass {
    if cost(a) >= cost(b) {
        a
    } else {
        b
    }
}

impl CostClass {
    /// The costlier of the two classes.
    pub fn raise(self, other: CostClass) -> (r: CostClass)
        ensures
            r == costlier(self, other),
    {
        match (self, other) {
            (CostClass::Scan, _) => CostClass::Scan,
            (_, CostClass::Scan) => CostClass::Scan,
            (CostClass::Bounded, _) => CostClass::Bounded,
            (_, CostClass::Bounded) => CostClass::Bounded,
            _ => CostClass::Point,
        }
    }

    /// The name of the class.
    pub fn name(self) -> (r: &'static str)
        ensures
            r@ == class_name(self),
    {
        match self {
            CostClass::Point => "POINT",
            CostClass::Bounded => "BOUNDED",
            CostClass::Scan => "SCAN",
        }
    }
}

/// A compiled read: its class, and a trace for people.
#[derive(Debug)]
pub struct Plan {
    pub class: CostClass,
    pub steps: Vec<String>,
}

/// The model of a plan.
pub struct PlanV {
    pub class: CostClass,
    pub steps: Seq<Seq<char>>,
}

impl View for Plan {
    type V = PlanV;

    open spec fn view(&self) -> PlanV {
        PlanV { class: self.class, steps: texts(self.steps@) }
    }
}

/// The first `n` lines, each with its end.
pub open spec fn plan_lines(steps: Seq<Seq<char>>, n: int) -> Seq<char>
    decreases n,
{
    if n <= 0 || n > steps.len() {
        Seq::empty()
    } else {
        plan_lines(steps, n - 1) + steps[n - 1] + "\n"@
    }
}

impl Plan {
    /// The trace, one step a line, and the class.
    pub fn text(&self) -> (r: String)
        ensures
            r@ == plan_lines(self@.steps, self@.steps.len() as int) + "estimated class: "@
                + class_name(self@.class),
    {
        let mut m: String = "".to_owned();
        let mut i: usize = 0;
        proof {
            reveal_strlit("");
            assert(m@ =~= Seq::<char>::empty());
        }
        while i < self.steps.len()
            invariant
                i <= self.steps@.len(),
                m@ == plan_lines(self@.steps, i as int),
            decreases self.steps@.len() - i,
        {
            m.append(self.steps[i].as_str());
            m.append("\n");
            i = i + 1;
        }
        m.append("estimated class: ");
        m.append(self.class.name());
        m
    }
}

/// What is known after some steps of a query.
pub struct TraceV {
    pub shape: ShapeV,
    pub class: CostClass,
    pub steps: Seq<Seq<char>>,
    pub in_value: bool,
    pub path: Seq<char>,
}

impl TraceV {
    /// With one more line.
    pub open spec fn line(self, text: Seq<char>) -> TraceV {
        TraceV { steps: self.steps.push(text), ..self }
    }

    /// At least of class `c`.
    pub open spec fn raised(self, c: CostClass) -> TraceV {
        TraceV { class: costlier(self.class, c), ..self }
    }

    /// Inside a leaf from here on.
    pub open spec fn inside(self) -> TraceV {
        TraceV { in_value: true, ..self }
    }

    /// One point further: the path grows by `part`.
    pub open spec fn point(self, part: Seq<char>, next: ShapeV) -> TraceV {
        let path = self.path + part + "/"@;
        TraceV { path, shape: next, ..self }.line("PointGet "@ + path)
    }

    /// At the elements of the collection.
    pub open spec fn into_element(self) -> Result<TraceV, ErrorV> {
        match element_of(self.shape) {
            Err(e) => Err(e),
            Ok(next) => Ok(TraceV { shape: next, ..self }),
        }
    }
}

/// The field that a plain equality compares.
pub open spec fn equated_field(p: PredicateV) -> Option<Seq<char>> {
    match p {
        PredicateV::Compare(r, a, b) => if r == Relation::Eq {
            match (a, b) {
                (ExprV::Field(f), ExprV::Lit(_)) => Some(f),
                (ExprV::Lit(_), ExprV::Field(f)) => Some(f),
                _ => None,
            }
        } else {
            None
        },
        _ => None,
    }
}

/// The hint for an equality on `field`.
pub open spec fn hint_of(field: Seq<char>) -> Seq<char> {
    "hint: equality on "@ + debug_of_text(field) + " is a SCAN; a Map keyed by "@ + field
        + " is POINT"@
}

/// A bound of a slice, where there is one.
pub open spec fn bound_text(b: Option<u64>) -> Seq<char> {
    match b {
        Some(n) => dec(n as nat),
        None => Seq::empty(),
    }
}

/// What is known after one more step.
pub open spec fn traced_step(f: Seq<FactV>, t: TraceV, nav: NavV) -> Result<TraceV, ErrorV> {
    if t.in_value {
        match nav_label_of(f, nav) {
            Err(e) => Err(e),
            Ok(s) => Ok(t.line("  → in-memory "@ + s)),
        }
    } else {
        match nav {
            NavV::Field(name) => if t.shape is Leaf {
                Ok(t.inside().line("  → Field "@ + name + " (leaf interior)"@))
            } else {
                match field_in(t.shape, name) {
                    Err(e) => Err(e),
                    Ok((_, next)) => Ok(t.point(name, next)),
                }
            },
            NavV::Key(k) => if t.shape is Leaf {
                match value_label_of(f, k) {
                    Err(e) => Err(e),
                    Ok(s) => Ok(t.inside().line("  → Key "@ + s + " (leaf interior)"@)),
                }
            } else if let ShapeV::Dict { of } = t.shape {
                match value_label_of(f, k) {
                    Err(e) => Err(e),
                    Ok(s) => Ok(t.point("["@ + s + "]"@, *of)),
                }
            } else {
                Err(ErrorV::Query("Key requires Map"@))
            },
            NavV::Index(i) => if t.shape is Leaf {
                Ok(t.inside().line("  → Index "@ + dec(i as nat) + " (leaf interior)"@))
            } else {
                match t.shape {
                    ShapeV::List { of } => Ok(t.point("["@ + dec(i as nat) + "]"@, *of)),
                    ShapeV::Deque { of } => Ok(t.point("["@ + dec(i as nat) + "]"@, *of)),
                    _ => Err(ErrorV::Query("Index requires List or Deque"@)),
                }
            },
            NavV::All | NavV::Values => t.raised(CostClass::Scan).line(
                "PrefixScan "@ + t.path,
            ).into_element(),
            NavV::Keys | NavV::Entries => Ok(
                t.raised(CostClass::Scan).line("PrefixScan "@ + t.path),
            ),
            NavV::Where(p) => match pred_label_of(f, *p) {
                Err(e) => Err(e),
                Ok(s) => {
                    let a = t.raised(CostClass::Scan).line("  → Filter "@ + s);
                    let b = match equated_field(*p) {
                        Some(field) => a.line(hint_of(field)),
                        None => a,
                    };
                    if collects(t.shape) {
                        b.into_element()
                    } else {
                        Ok(b)
                    }
                },
            },
            NavV::First => t.raised(CostClass::Bounded).line("  → First"@).into_element(),
            NavV::Last => t.raised(CostClass::Bounded).line("  → Last"@).into_element(),
            NavV::Slice { start, end } => t.raised(CostClass::Scan).line(
                "  → Slice "@ + bound_text(start) + ".."@ + bound_text(end),
            ).into_element(),
        }
    }
}

/// What is known after the first `n` steps.
pub open spec fn traced(f: Seq<FactV>, t: TraceV, ns: Seq<NavV>, n: int) -> Result<TraceV, ErrorV>
    decreases n,
{
    if n <= 0 || n > ns.len() {
        Ok(t)
    } else {
        match traced(f, t, ns, n - 1) {
            Err(e) => Err(e),
            Ok(u) => traced_step(f, u, ns[n - 1]),
        }
    }
}

/// What is known before the first step.
pub open spec fn trace_start(schema: ShapeV, q: QueryV) -> TraceV {
    TraceV {
        shape: schema,
        class: CostClass::Point,
        steps: Seq::empty(),
        in_value: false,
        path: match q.namespace {
            Some(ns) => "/"@ + ns,
            None => "/"@,
        },
    }
}

/// The plan of a query: a query without steps is a point get of its root.
pub open spec fn planned(f: Seq<FactV>, schema: ShapeV, q: QueryV) -> Result<PlanV, ErrorV> {
    match traced(f, trace_start(schema, q), q.navs, q.navs.len() as int) {
        Err(e) => Err(e),
        Ok(t) => Ok(
            PlanV {
                class: t.class,
                steps: if t.steps.len() == 0 {
                    seq!["PointGet "@ + t.path]
                } else {
                    t.steps
                },
            },
        ),
    }
}

/// What is known after some steps of a query.
struct Trace<'a> {
    shape: &'a Shape,
    class: CostClass,
    steps: Vec<String>,
    in_value: bool,
    path: String,
}

impl<'a> View for Trace<'a> {
    type V = TraceV;

    closed spec fn view(&self) -> TraceV {
        TraceV {
            shape: self.shape@,
            class: self.class,
            steps: texts(self.steps@),
            in_value: self.in_value,
            path: self.path@,
        }
    }
}

fn joined(a: &str, b: &str, c: &str) -> (r: String)
    ensures
        r@ == a@ + b@ + c@,
{
    let mut m: String = a.to_owned();
    m.append(b);
    m.append(c);
    m
}

fn joined2(a: &str, b: &str) -> (r: String)
    ensures
        r@ == a@ + b@,
{
    let mut m: String = a.to_owned();
    m.append(b);
    m
}

fn bound(b: &Option<u64>) -> (r: String)
    ensures
        r@ == bound_text(*b),
{
    match b {
        Some(n) => dec_u64(*n),
        None => {
            proof {
                reveal_strlit("");
            }
            let s: String = "".to_owned();
            assert(s@ =~= Seq::<char>::empty());
            s
        },
    }
}

fn eq_field_hint(p: &Predicate) -> (r: Option<&str>)
    ensures
        match (r, equated_field(p@)) {
            (Some(a), Some(b)) => a@ == b,
            (None, None) => true,
            _ => false,
        },
{
    match p {
        Predicate::Compare(r, a, b) => {
            if *r == Relation::Eq {
                let ghost pv = p@;
                let ghost av = a@;
                let ghost bv = b@;
                assert(pv == PredicateV::Compare(Relation::Eq, av, bv));
                match a {
                    Expr::Field(f) => match b {
                        Expr::Lit(_) => Some(f.as_str()),
                        _ => None,
                    },
                    Expr::Lit(_) => match b {
                        Expr::Field(f) => Some(f.as_str()),
                        _ => None,
                    },
                    Expr::Path(_) => None,
                }
            } else {
                None
            }
        },
        _ => None,
    }
}

impl<'a> Trace<'a> {
    fn line(&mut self, text: String)
        ensures
            final(self)@ == old(self)@.line(text@),
    {
        self.steps.push(text);
        assert(texts(self.steps@) =~= texts(old(self).steps@).push(text@));
    }

    fn raise(&mut self, c: CostClass)
        ensures
            final(self)@ == old(self)@.raised(c),
    {
        self.class = self.class.raise(c);
    }

    fn point(&mut self, part: &str, next: &'a Shape)
        ensures
            final(self)@ == old(self)@.point(part@, next@),
    {
        self.path.append(part);
        self.path.append("/");
        self.shape = next;
        let text: String = joined2("PointGet ", self.path.as_str());
        self.line(text);
    }

    fn descend(&mut self) -> (r: Result<(), Error>)
        ensures
            match (r, old(self)@.into_element()) {
                (Ok(_), Ok(t)) => final(self)@ == t,
                (Err(e), Err(w)) => e@ == w,
                _ => false,
            },
    {
        let next: &'a Shape = self.shape.element()?;
        self.shape = next;
        Ok(())
    }

    fn step(&mut self, floats: &FloatTable, nav: &Nav) -> (r: Result<(), Error>)
        ensures
            match (r, traced_step(floats@, old(self)@, nav@)) {
                (Ok(_), Ok(t)) => final(self)@ == t,
                (Err(e), Err(w)) => e@ == w,
                _ => false,
            },
    {
        if self.in_value {
            let s: String = nav_label(floats, nav)?;
            self.line(joined2("  → in-memory ", s.as_str()));
            return Ok(());
        }
        let leaf: bool = match self.shape {
            Shape::Leaf => true,
            _ => false,
        };
        match nav {
            Nav::Field(name) => {
                if leaf {
                    self.in_value = true;
                    self.line(joined("  → Field ", name.as_str(), " (leaf interior)"));
                } else {
                    let (_, next) = self.shape.field(name.as_str())?;
                    self.point(name.as_str(), next);
                }
                Ok(())
            },
            Nav::Key(k) => {
                if leaf {
                    let s: String = value_label(floats, k)?;
                    self.in_value = true;
                    self.line(joined("  → Key ", s.as_str(), " (leaf interior)"));
                    Ok(())
                } else {
                    match self.shape {
                        Shape::Dict { of } => {
                            let s: String = value_label(floats, k)?;
                            self.point(joined("[", s.as_str(), "]").as_str(), of);
                            Ok(())
                        },
                        _ => query_error("Key requires Map"),
                    }
                }
            },
            Nav::Index(i) => {
                let s: String = dec_u64(*i);
                if leaf {
                    self.in_value = true;
                    self.line(joined("  → Index ", s.as_str(), " (leaf interior)"));
                    Ok(())
                } else {
                    match self.shape {
                        Shape::List { of } => {
                            self.point(joined("[", s.as_str(), "]").as_str(), of);
                            Ok(())
                        },
                        Shape::Deque { of } => {
                            self.point(joined("[", s.as_str(), "]").as_str(), of);
                            Ok(())
                        },
                        _ => query_error("Index requires List or Deque"),
                    }
                }
            },
            Nav::All | Nav::Values => {
                self.raise(CostClass::Scan);
                let text: String = joined2("PrefixScan ", self.path.as_str());
                self.line(text);
                self.descend()
            },
            Nav::Keys | Nav::Entries => {
                self.raise(CostClass::Scan);
                let text: String = joined2("PrefixScan ", self.path.as_str());
                self.line(text);
                Ok(())
            },
            Nav::Where(p) => {
                let s: String = pred_label(floats, p)?;
                self.raise(CostClass::Scan);
                self.line(joined2("  → Filter ", s.as_str()));
                if let Some(field) = eq_field_hint(p) {
                    let mut m: String = joined(
                        "hint: equality on ",
                        debug_text(field).as_str(),
                        " is a SCAN; a Map keyed by ",
                    );
                    m.append(field);
                    m.append(" is POINT");
                    self.line(m);
                }
                if self.shape.is_collection() {
                    self.descend()
                } else {
                    Ok(())
                }
            },
            Nav::First => {
                self.raise(CostClass::Bounded);
                self.line("  → First".to_owned());
                self.descend()
            },
            Nav::Last => {
                self.raise(CostClass::Bounded);
                self.line("  → Last".to_owned());
                self.descend()
            },
            Nav::Slice { start, end } => {
                self.raise(CostClass::Scan);
                let mut m: String = joined("  → Slice ", bound(start).as_str(), "..");
                m.append(bound(end).as_str());
                self.line(m);
                self.descend()
            },
        }
    }
}

proof fn lemma_traced_err(f: Seq<FactV>, t: TraceV, ns: Seq<NavV>, i: int, n: int)
    requires
        0 <= i <= n <= ns.len(),
        traced(f, t, ns, i) is Err,
    ensures
        traced(f, t, ns, n) == traced(f, t, ns, i),
    decreases n,
{
    if i < n {
        lemma_traced_err(f, t, ns, i, n - 1);
    }
}

/// The plan of `query` against `schema`, made without the store.
pub fn explain(floats: &FloatTable, schema: &Shape, query: &Query) -> (r: Result<Plan, Error>)
    ensures
        match (r, planned(floats@, schema@, query@)) {
            (Ok(p), Ok(v)) => p@ == v,
            (Err(e), Err(w)) => e@ == w,
            _ => false,
        },
{
    let ghost nv = navs_v(query.navs);
    let ghost start = trace_start(schema@, query@);
    proof {
        lemma_navs(query.navs);
    }
    let mut path: String = "/".to_owned();
    if let Some(ns) = &query.namespace {
        path.append(ns.as_str());
    }
    let mut t = Trace {
        shape: schema,
        class: CostClass::Point,
        steps: Vec::new(),
        in_value: false,
        path,
    };
    assert(texts(t.steps@) =~= Seq::<Seq<char>>::empty());
    let mut i: usize = 0;
    while i < query.navs.len()
        invariant
            i <= query.navs@.len(),
            nv == navs_v(query.navs),
            nv == query@.navs,
            nv.len() == query.navs@.len(),
            start == trace_start(schema@, query@),
            forall|j: int| 0 <= j < nv.len() ==> #[trigger] nv[j] == query.navs@[j]@,
            traced(floats@, start, nv, i as int) == Ok::<TraceV, ErrorV>(t@),
        decreases query.navs@.len() - i,
    {
        let ghost x = nv[i as int];
        match t.step(floats, &query.navs[i]) {
            Ok(_) => {},
            Err(e) => {
                proof {
                    lemma_traced_err(floats@, start, nv, i + 1, nv.len() as int);
                }
                return Err(e);
            },
        }
        i = i + 1;
    }
    let ghost tv = t@;
    if t.steps.len() == 0 {
        let text: String = joined2("PointGet ", t.path.as_str());
        t.line(text);
        assert(t@.steps =~= seq!["PointGet "@ + tv.path]);
    }
    Ok(Plan { class: t.class, steps: t.steps })
}

/// A plan never gets cheaper by a further step.
pub proof fn law_cost_is_monotone(f: Seq<FactV>, t: TraceV, nav: NavV)
    ensures
        traced_step(f, t, nav) matches Ok(u) ==> cost(t.class) <= cost(u.class),
{
}

/// A step over all children, a filter or a slice at a location of the store
/// makes the plan a scan.
pub proof fn law_collecting_is_scan(f: Seq<FactV>, t: TraceV, nav: NavV)
    requires
        !t.in_value,
        crate::nav::collecting(nav),
    ensures
        traced_step(f, t, nav) matches Ok(u) ==> u.class == CostClass::Scan,
{
}

/// Steps by field, key or index keep the class.
pub proof fn law_points_are_points(f: Seq<FactV>, t: TraceV, nav: NavV)
    requires
        nav is Field || nav is Key || nav is Index,
    ensures
        traced_step(f, t, nav) matches Ok(u) ==> u.class == t.class,
{
}

} // verus!
