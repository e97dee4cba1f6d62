use durable::data::{same_data, Data};
use durable::db::Db;
use durable::explain::{explain, CostClass};
use durable::float::FloatTable;
use durable::nav::{Expr, Nav, Predicate, Query, Relation};
use durable::path::Path;
use durable::schema::{Dict, Leaf, List, Schema, Sum};
use durable::shape::{Describe, Shape};
use durable::terminal::{entries, one, project, select, subtree};

struct Store;
impl Schema for Store {}

fn text(s: &str) -> Data {
    Data::Text(s.to_string())
}

fn event(id: &str, kind: &str, epoch: u64, split_vote: bool) -> Data {
    Data::Dict(vec![
        (text("id"), text(id)),
        (text("kind"), text(kind)),
        (text("epoch"), Data::UInt(epoch)),
        (text("payload"), Data::Dict(vec![(text("split_vote"), Data::Bool(split_vote))])),
    ])
}

fn shape() -> Shape {
    Shape::record(vec![
        ("events".to_string(), <List<Leaf> as Describe>::shape()),
        ("evidence_by_id".to_string(), <Dict<Leaf> as Describe>::shape()),
        ("event_ids_by_kind".to_string(), <Dict<List<Leaf>> as Describe>::shape()),
        ("emissions".to_string(), <Dict<Leaf> as Describe>::shape()),
        ("latest_emission".to_string(), <Leaf as Describe>::shape()),
        ("scores".to_string(), <Dict<Sum<i64>> as Describe>::shape()),
    ])
}

fn seeded() -> Db {
    let mut db = Db::new();
    let root = Path::<Store>::root();
    let events: Path<List<Leaf>> = root.child_field(0);
    let evidence: Path<Dict<Leaf>> = root.child_field(1);
    let by_kind: Path<Dict<List<Leaf>>> = root.child_field(2);
    let emissions: Path<Dict<Leaf>> = root.child_field(3);
    let latest: Path<Leaf> = root.child_field(4);
    let scores: Path<Dict<Sum<i64>>> = root.child_field(5);
    let e1 = event("e1", "llm.judgment", 3, false);
    let e2 = event("e2", "llm.judgment", 12, true);
    let e3 = event("e3", "git.commit", 12, false);
    let em = Data::Dict(vec![
        (text("epoch"), Data::UInt(12)),
        (text("ranking"), Data::Array(vec![text("tommy-mor"), text("lara")])),
        (
            text("distributions"),
            Data::Dict(vec![
                (text("lara"), Data::Float(0.4f64.to_bits())),
                (text("tommy-mor"), Data::Float(0.6f64.to_bits())),
            ]),
        ),
    ]);
    db.apply(
        &FloatTable::new(),
        vec![
            events.push_op(&e1),
            events.push_op(&e2),
            events.push_op(&e3),
            evidence.key(&text("e1")).set(&e1),
            evidence.key(&text("e2")).set(&e2),
            evidence.key(&text("e3")).set(&e3),
            by_kind.key(&text("llm.judgment")).push_op(&text("e1")),
            by_kind.key(&text("llm.judgment")).push_op(&text("e2")),
            by_kind.key(&text("git.commit")).push_op(&text("e3")),
            emissions.key(&Data::UInt(12)).set(&em),
            latest.set(&em),
            scores.key(&text("tommy-mor")).add(10),
            scores.key(&text("lara")).add(4),
        ],
    )
    .unwrap();
    db
}

fn field(s: &str) -> Nav {
    Nav::Field(s.to_string())
}

fn str_of(d: &Data) -> &str {
    match d {
        Data::Text(s) => s,
        other => panic!("expected text, got {:?}", other),
    }
}

fn strs(ds: &[Data]) -> Vec<&str> {
    ds.iter().map(str_of).collect()
}

fn map_get<'a>(v: &'a Data, key: &str) -> &'a Data {
    match v {
        Data::Dict(pairs) => {
            &pairs.iter().find(|(k, _)| matches!(k, Data::Text(s) if s == key)).unwrap().1
        }
        other => panic!("expected map, got {:?}", other),
    }
}

#[test]
fn one_point_get() {
    let db = seeded();
    let q = Query::new(vec![field("evidence_by_id"), Nav::Key(text("e2")), field("kind")]);
    let got = one(&FloatTable::new(), &db, &shape(), &q).unwrap().unwrap();
    assert_eq!(str_of(&got), "llm.judgment");
}

#[test]
fn one_rejects_collecting_paths() {
    let db = seeded();
    let q = Query::new(vec![field("emissions"), Nav::All]);
    let e = one(&FloatTable::new(), &db, &shape(), &q).unwrap_err();
    assert_eq!(
        e.message(),
        "query error: one() requires a point path; use select() for All/Where/Slice"
    );
}

#[test]
fn select_kinds_is_a_scan() {
    let db = seeded();
    let floats = FloatTable::new();
    let q = Query::new(vec![field("events"), Nav::All, field("kind")]);
    let kinds = select(&floats, &db, &shape(), &q).unwrap();
    assert_eq!(strs(&kinds), vec!["llm.judgment", "llm.judgment", "git.commit"]);

    let plan = explain(&floats, &shape(), &q).unwrap();
    assert_eq!(plan.class, CostClass::Scan);
    assert!(plan.text().contains("PrefixScan"));
}

#[test]
fn where_filters_leaf_interiors() {
    let db = seeded();
    let q = Query::new(vec![
        field("events"),
        Nav::Where(Predicate::Compare(
            Relation::Ge,
            Expr::Field("epoch".to_string()),
            Expr::Lit(Data::UInt(10)),
        )),
        field("id"),
    ]);
    let ids = select(&FloatTable::new(), &db, &shape(), &q).unwrap();
    assert_eq!(strs(&ids), vec!["e2", "e3"]);
}

#[test]
fn nested_where_on_payload() {
    let db = seeded();
    let q = Query::new(vec![
        field("events"),
        Nav::Where(Predicate::Compare(
            Relation::Eq,
            Expr::Path(vec![field("payload"), field("split_vote")]),
            Expr::Lit(Data::Bool(true)),
        )),
        field("id"),
    ]);
    let ids = select(&FloatTable::new(), &db, &shape(), &q).unwrap();
    assert_eq!(strs(&ids), vec!["e2"]);
}

#[test]
fn subtree_and_project() {
    let db = seeded();
    let floats = FloatTable::new();
    let latest =
        subtree(&floats, &db, &shape(), &Query::new(vec![field("latest_emission")])).unwrap();
    assert!(same_data(map_get(&latest, "epoch"), &Data::UInt(12)));

    let projected = project(
        &floats,
        &db,
        &shape(),
        &vec![
            ("latest".to_string(), Query::new(vec![field("latest_emission")])),
            ("kinds".to_string(), Query::new(vec![field("events"), Nav::All, field("kind")])),
        ],
    )
    .unwrap();
    match map_get(&projected, "kinds") {
        Data::Array(xs) => assert_eq!(xs.len(), 3),
        other => panic!("{:?}", other),
    }
}

#[test]
fn entries_and_sum() {
    let db = seeded();
    let floats = FloatTable::new();
    let pairs = entries(&floats, &db, &shape(), &Query::new(vec![field("scores")])).unwrap();
    assert_eq!(pairs.len(), 2);
    let tommy = one(
        &floats,
        &db,
        &shape(),
        &Query::new(vec![field("scores"), Nav::Key(text("tommy-mor"))]),
    )
    .unwrap()
    .unwrap();
    assert!(same_data(&tommy, &Data::UInt(10)));
}

#[test]
fn explain_point_vs_scan() {
    let floats = FloatTable::new();
    let point = Query::new(vec![field("evidence_by_id"), Nav::Key(text("e1"))]);
    let scan = Query::new(vec![
        field("emissions"),
        Nav::All,
        field("distributions"),
        Nav::Key(text("tommy-mor")),
    ]);
    assert_eq!(explain(&floats, &shape(), &point).unwrap().class, CostClass::Point);
    let plan = explain(&floats, &shape(), &scan).unwrap();
    assert_eq!(plan.class, CostClass::Scan);
    assert!(plan.text().contains("estimated class: SCAN"));

    let filter = Query::new(vec![
        field("events"),
        Nav::Where(Predicate::Compare(
            Relation::Eq,
            Expr::Field("id".to_string()),
            Expr::Lit(text("e1")),
        )),
    ]);
    let hinted = explain(&floats, &shape(), &filter).unwrap();
    assert_eq!(hinted.class, CostClass::Scan);
    assert!(hinted.text().contains("a Map keyed by id is POINT"));
}

#[test]
fn shape_describe_matches_manual() {
    let expected = Shape::record(vec![
        ("events".to_string(), Shape::list(Shape::Leaf)),
        ("evidence_by_id".to_string(), Shape::map(Shape::Leaf)),
        ("event_ids_by_kind".to_string(), Shape::map(Shape::list(Shape::Leaf))),
        ("emissions".to_string(), Shape::map(Shape::Leaf)),
        ("latest_emission".to_string(), Shape::Leaf),
        ("scores".to_string(), Shape::map(Shape::Sum)),
    ]);
    assert!(same_data(&shape().to_wire(), &expected.to_wire()));
}

#[test]
fn query_cbor_roundtrip() {
    let q = Query::namespaced(
        "constitution-v1".to_string(),
        vec![field("emissions"), Nav::All, field("distributions"), Nav::Key(text("tommy-mor"))],
    );
    let back = Query::from_cbor(&q.to_cbor()).unwrap();
    assert!(same_data(&back.to_value(), &q.to_value()));
}

#[test]
fn where_cbor_roundtrip() {
    let q = Query::new(vec![
        field("events"),
        Nav::Where(Predicate::Compare(
            Relation::Gt,
            Expr::Field("epoch".to_string()),
            Expr::Lit(Data::UInt(4)),
        )),
    ]);
    let back = Query::from_cbor(&q.to_cbor()).unwrap();
    assert!(same_data(&back.to_value(), &q.to_value()));
}

#[test]
fn explain_traces_each_step() {
    let floats = FloatTable::new();
    let q = Query::namespaced(
        "ns".to_string(),
        vec![
            field("events"),
            Nav::Slice { start: Some(1), end: None },
            field("payload"),
            Nav::Key(text("split_vote")),
        ],
    );
    assert_eq!(
        explain(&floats, &shape(), &q).unwrap().text(),
        "PointGet /nsevents/\n  \u{2192} Slice 1..\n  \u{2192} Field payload (leaf interior)\n  \u{2192} in-memory Key \"split_vote\"\nestimated class: SCAN"
    );
    let e = explain(&floats, &shape(), &Query::new(vec![field("nothing")])).unwrap_err();
    assert_eq!(e.message(), "query error: unknown field \"nothing\"");
    let e = explain(&floats, &shape(), &Query::new(vec![Nav::Key(text("k"))])).unwrap_err();
    assert_eq!(e.message(), "query error: Key requires Map");
    let e = explain(&floats, &shape(), &Query::new(vec![Nav::Index(1)])).unwrap_err();
    assert_eq!(e.message(), "query error: Index requires List or Deque");
    assert_eq!(
        explain(&floats, &shape(), &Query::new(vec![])).unwrap().text(),
        "PointGet /\nestimated class: POINT"
    );
}

#[test]
fn terminals_reject_what_they_cannot_collect() {
    let db = seeded();
    let floats = FloatTable::new();
    let all = Query::new(vec![field("events"), Nav::All]);
    let e = subtree(&floats, &db, &shape(), &all).unwrap_err();
    assert_eq!(
        e.message(),
        "query error: subtree() requires a point path; use select() for collections"
    );
    let e = entries(&floats, &db, &shape(), &all).unwrap_err();
    assert_eq!(e.message(), "query error: entries() requires a point path to a Map");
    let leaf = Query::new(vec![field("latest_emission"), field("epoch")]);
    let e = entries(&floats, &db, &shape(), &leaf).unwrap_err();
    assert_eq!(e.message(), "query error: entries() requires a Map");
    let none = Query::new(vec![field("event_ids_by_kind"), Nav::Key(text("none")), Nav::First]);
    let e = entries(&floats, &db, &shape(), &none).unwrap_err();
    assert_eq!(e.message(), "query error: entries() requires exactly one map");
    assert!(one(&floats, &db, &shape(), &none).unwrap().is_none());
}

#[test]
fn first_last_and_slice_pick_children_in_order() {
    let db = seeded();
    let floats = FloatTable::new();
    let ids = |navs: Vec<Nav>| {
        let got = select(&floats, &db, &shape(), &Query::new(navs)).unwrap();
        got.iter().map(|d| str_of(d).to_string()).collect::<Vec<String>>()
    };
    assert_eq!(ids(vec![field("events"), Nav::First, field("id")]), vec!["e1"]);
    assert_eq!(ids(vec![field("events"), Nav::Last, field("id")]), vec!["e3"]);
    let slice = Nav::Slice { start: Some(1), end: Some(9) };
    assert_eq!(ids(vec![field("events"), slice, field("id")]), vec!["e2", "e3"]);
    assert_eq!(ids(vec![field("event_ids_by_kind"), Nav::Keys]), vec!["git.commit", "llm.judgment"]);
}
