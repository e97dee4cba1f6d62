use durable::data::{same_data, Data};
use durable::db::Db;
use durable::dynpath::{add, clear, delete, navs_for, peek, push, put, resolve};
use durable::float::FloatTable;
use durable::json::{cbor_to_json, json_to_cbor, Json};
use durable::nav::{Nav, Query};
use durable::op::Op;
use durable::shape::Shape;
use durable::terminal::select;

fn text(s: &str) -> Data {
    Data::Text(s.to_string())
}

fn schema() -> Shape {
    Shape::record(vec![
        (
            "todos".to_string(),
            Shape::map(Shape::record(vec![
                ("text".to_string(), Shape::Leaf),
                ("done".to_string(), Shape::Leaf),
            ])),
        ),
        (
            "stats".to_string(),
            Shape::record(vec![
                ("created".to_string(), Shape::Sum),
                ("completed".to_string(), Shape::Sum),
            ]),
        ),
        ("title".to_string(), Shape::Leaf),
    ])
}

fn tagged(name: &str) -> Data {
    Data::Tag(27, Box::new(Data::Array(vec![text("nav"), text(name)])))
}

#[test]
fn put_record_expands_and_peek_roundtrips() {
    let floats = FloatTable::new();
    let mut db = Db::new();
    let s = schema();
    let navs = navs_for(&s, &vec![text("todos"), Data::UInt(0)]).unwrap();
    let writes = put(
        &s,
        None,
        &navs,
        &Data::Dict(vec![(text("text"), text("milk")), (text("done"), Data::Bool(false))]),
    )
    .unwrap();
    assert_eq!(writes.len(), 2);
    db.apply(&floats, writes).unwrap();

    let navs = navs_for(&s, &vec![text("todos"), Data::UInt(0), text("text")]).unwrap();
    assert!(same_data(&peek(&floats, &db, &s, None, &navs).unwrap(), &text("milk")));
}

#[test]
fn tagged_nav_steps_build_collecting_queries() {
    let floats = FloatTable::new();
    let mut db = Db::new();
    let s = schema();
    for (i, name) in ["milk", "eggs"].iter().enumerate() {
        let navs = navs_for(&s, &vec![text("todos"), Data::UInt(i as u64), text("text")]).unwrap();
        db.apply(&floats, put(&s, None, &navs, &text(name)).unwrap()).unwrap();
    }
    let navs = navs_for(&s, &vec![text("todos"), tagged("all"), text("text")]).unwrap();
    assert!(matches!(navs[1], Nav::All));
    let texts = select(&floats, &db, &s, &Query::new(navs)).unwrap();
    assert_eq!(texts.len(), 2);
    assert!(same_data(&texts[0], &text("milk")));
    assert!(same_data(&texts[1], &text("eggs")));

    let navs = navs_for(&s, &vec![text("todos"), tagged("all")]).unwrap();
    let e = put(&s, None, &navs, &Data::Bool(true)).unwrap_err();
    assert_eq!(e.message(), "query error: write path cannot contain All");
    let e = navs_for(&s, &vec![text("todos"), tagged("some")]).unwrap_err();
    assert_eq!(e.message(), "query error: unknown nav combinator \"some\"");
}

#[test]
fn add_is_blind_sum() {
    let floats = FloatTable::new();
    let mut db = Db::new();
    let s = schema();
    let navs = navs_for(&s, &vec![text("stats"), text("created")]).unwrap();
    db.apply(
        &floats,
        vec![
            add(&s, None, &navs, &Data::UInt(1)).unwrap(),
            add(&s, None, &navs, &Data::Float(2.0f64.to_bits())).unwrap(),
        ],
    )
    .unwrap();
    assert!(same_data(&peek(&floats, &db, &s, None, &navs).unwrap(), &Data::UInt(3)));
    let e = add(&s, None, &navs, &text("x")).unwrap_err();
    assert_eq!(e.message(), "query error: Sum value must be numeric, got Text(\"x\")");
}

#[test]
fn writes_name_one_place() {
    let s = Shape::record(vec![
        ("items".to_string(), Shape::list(Shape::Leaf)),
        ("queue".to_string(), Shape::deque(Shape::Leaf)),
        ("note".to_string(), Shape::Leaf),
    ]);
    let f = |n: &str| Nav::Field(n.to_string());
    assert!(matches!(push(&s, None, &vec![f("items")], &text("a")).unwrap().op(), Op::ListPush { .. }));
    assert!(matches!(
        push(&s, None, &vec![f("queue")], &text("a")).unwrap().op(),
        Op::DequePushBack { .. }
    ));
    assert!(matches!(delete(&s, None, &vec![f("note")]).unwrap().op(), Op::Delete { .. }));
    assert!(matches!(delete(&s, None, &vec![f("items")]).unwrap().op(), Op::DeletePrefix { .. }));
    assert!(matches!(clear(&s, Some("ns"), &vec![f("note")]).unwrap().op(), Op::DeletePrefix { .. }));
    let messages = [
        (push(&s, None, &vec![f("note")], &text("a")).unwrap_err(), "push requires List<Leaf> or Deque<Leaf>, got Leaf"),
        (add(&s, None, &vec![f("note")], &Data::UInt(1)).unwrap_err(), "add requires Sum, got Leaf"),
        (delete(&s, None, &vec![f("note"), f("x")]).unwrap_err(), "write path entered a Leaf at field \"x\"; put the whole leaf"),
        (delete(&s, None, &vec![f("queue"), Nav::Index(0)]).unwrap_err(), "absolute Deque Index is not a write address; use push"),
        (delete(&s, None, &vec![f("queue"), Nav::Key(text("k"))]).unwrap_err(), "Deque writes use Index (logical) or push/clear"),
        (delete(&s, None, &vec![f("items"), Nav::Key(text("k"))]).unwrap_err(), "integer Key on List required; use Index"),
        (delete(&s, None, &vec![f("items"), f("x")]).unwrap_err(), "field \"x\" on a List"),
        (delete(&s, None, &vec![Nav::Index(2)]).unwrap_err(), "Index on a Record"),
    ];
    for (e, want) in messages {
        assert_eq!(e.message(), format!("query error: {}", want));
    }
    let e = put(&s, None, &vec![f("items")], &text("a")).unwrap_err();
    assert_eq!(e.message(), "query error: put on a List \u{2014} put each entry, or clear + push");
    let a = resolve(&s, None, &vec![f("items"), Nav::Index(3)]).unwrap();
    let b = resolve(&s, None, &vec![f("items"), Nav::Key(Data::Float(3.0f64.to_bits()))]).unwrap();
    assert_eq!(a.prefix, b.prefix);
}

#[test]
fn json_and_data_convert_into_each_other() {
    let j = Json::Object(vec![
        ("a".to_string(), Json::Array(vec![Json::Int(-1), Json::UInt(u64::MAX), Json::Null])),
        ("b".to_string(), Json::Float(1.5f64.to_bits())),
    ]);
    let d = json_to_cbor(&j);
    let want = Data::Dict(vec![
        (text("a"), Data::Array(vec![Data::NInt(0), Data::UInt(u64::MAX), Data::Null])),
        (text("b"), Data::Float(1.5f64.to_bits())),
    ]);
    assert!(same_data(&d, &want));
    assert!(same_data(&json_to_cbor(&cbor_to_json(&d)), &want));
    assert!(matches!(cbor_to_json(&Data::NInt(u64::MAX)), Json::Null));
    assert!(matches!(cbor_to_json(&Data::Float(f64::NAN.to_bits())), Json::Null));
    match cbor_to_json(&Data::Dict(vec![(Data::UInt(1), Data::Bytes(vec![7]))])) {
        Json::Array(xs) => assert!(matches!(&xs[0], Json::Array(p) if p.len() == 2)),
        other => panic!("{:?}", other),
    }
    match cbor_to_json(&Data::Dict(vec![
        (text("z"), Data::UInt(1)),
        (text("a"), Data::UInt(2)),
        (text("z"), Data::UInt(3)),
    ])) {
        Json::Object(m) => {
            assert_eq!(m[0].0, "a");
            assert!(matches!(m[1].1, Json::Int(3)));
            assert_eq!(m.len(), 2);
        }
        other => panic!("{:?}", other),
    }
}

#[test]
fn what_is_put_is_what_the_path_reads() {
    let floats = FloatTable::new();
    let mut db = Db::new();
    let s = schema();
    let at = navs_for(&s, &vec![text("stats")]).unwrap();
    let item =
        Data::Dict(vec![(text("completed"), Data::UInt(1)), (text("created"), Data::NInt(2))]);
    db.apply(&floats, put(&s, None, &at, &item).unwrap()).unwrap();
    let want =
        Data::Dict(vec![(text("created"), Data::NInt(2)), (text("completed"), Data::UInt(1))]);
    assert!(same_data(&peek(&floats, &db, &s, None, &at).unwrap(), &want));
    // what lies beside it is as it was
    let title = navs_for(&s, &vec![text("title")]).unwrap();
    assert!(same_data(&peek(&floats, &db, &s, None, &title).unwrap(), &Data::Null));
}

#[test]
fn queries_see_lists_and_deques_as_they_are() {
    let floats = FloatTable::new();
    let mut db = Db::new();
    let s = Shape::record(vec![
        ("list".to_string(), Shape::list(Shape::Leaf)),
        ("deque".to_string(), Shape::deque(Shape::Leaf)),
    ]);
    for name in ["list", "deque"] {
        let at = navs_for(&s, &vec![text(name)]).unwrap();
        for i in 0..3u64 {
            let w = push(&s, None, &at, &Data::UInt(i)).unwrap();
            db.run(&floats, w).unwrap();
        }
        let want = Data::Array(vec![Data::UInt(0), Data::UInt(1), Data::UInt(2)]);
        assert!(same_data(&peek(&floats, &db, &s, None, &at).unwrap(), &want));
        let mut navs = at;
        navs.push(Nav::All);
        let all = select(&floats, &db, &s, &Query::new(navs)).unwrap();
        assert_eq!(all.len(), 3);
        assert!(same_data(&all[2], &Data::UInt(2)));
    }
}

#[test]
fn a_sum_is_set_exactly() {
    let floats = FloatTable::new();
    let mut db = Db::new();
    let s = schema();
    let navs = navs_for(&s, &vec![text("stats"), text("created")]).unwrap();
    let cases = [
        (Data::UInt(7), Data::UInt(7)),
        (Data::Float(2.0f64.to_bits()), Data::UInt(2)),
        (Data::Float(2.5f64.to_bits()), Data::Float(2.5f64.to_bits())),
        (Data::Float((-9223372036854775808.0f64).to_bits()), Data::NInt(i64::MAX as u64)),
        (
            Data::Float(9223372036854775808.0f64.to_bits()),
            Data::Float(9223372036854775808.0f64.to_bits()),
        ),
    ];
    for (put_in, want) in cases {
        db.apply(&floats, put(&s, None, &navs, &put_in).unwrap()).unwrap();
        assert!(same_data(&peek(&floats, &db, &s, None, &navs).unwrap(), &want));
    }
}
