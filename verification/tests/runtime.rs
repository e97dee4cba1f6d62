use durable::compiler::compile;
use durable::data::Data;
use durable::db::Db;
use durable::error::Error;
use durable::float::{Fact, FloatTable};
use durable::interp::get_global;
use durable::ir::BinOp;
use durable::json::{read_json, Json};
use durable::nav::{Nav, Query};
use durable::query::{map_get, values_eq};
use durable::rt::{SideId, Tick, Vm};
use durable::runtime::{next_ts, tape_lines, Meta, Record, Runtime};
use durable::shape::Shape;
use durable::store::{bind, record_line, value_shape, HopReducer};
use durable::value::Ask;

const STORE: &str = r#"
server let schema = store.record([
  ["events", store.list(store.leaf)],
  ["evidence_by_id", store.map(store.leaf)],
  ["event_ids_by_kind", store.map(store.list(store.leaf))],
  ["latest_emission", store.leaf],
  ["last_seq", store.leaf]
]);

fn reduce(event) {
  match event {
    evidence { id, kind, epoch } => {
      let e = { id = id, kind = kind, epoch = epoch };
      store(["events", store.push(e)]);
      store(["evidence_by_id", id, store.set(e)]);
      store(["event_ids_by_kind", kind, store.push(id)]);
    }
    emission { epoch, ranking } => {
      store(["latest_emission", store.set({ epoch = epoch, ranking = ranking })]);
    }
  }
  store(["last_seq", store.set(event.seq)]);
}
"#;

const TODO: &str = r#"
server let schema = store.record([
  ["todos", store.map(store.record([
    ["text", store.leaf],
    ["done", store.leaf]
  ]))],
  ["stats", store.record([
    ["created", store.sum],
    ["completed", store.sum]
  ])]
]);

fn reduce(event) {
  match event {
    add { text } => {
      store(["todos", event.seq, store.set({ text = text, done = false })]);
      store(["stats", "created", store.add(1)]);
    }
    toggle { id } => {
      let next = store(["todos", id, "done"]) != true;
      store(["todos", id, "done", store.set(next)]);
      if next {
        store(["stats", "completed", store.add(1)]);
      } else {
        store(["stats", "completed", store.add(-1)]);
      }
    }
    else => {
      error("unknown event " .. event.type);
    }
  }
}
"#;

/// The schema and the reducer of a program.
fn booted(src: &str) -> (Shape, HopReducer) {
    let floats = FloatTable::new();
    let prog = compile(src, &floats).unwrap();
    let mut vm = Vm::new(prog, SideId::Server);
    loop {
        match vm.step(&floats) {
            Tick::Idle => break,
            Tick::More => {}
            Tick::Want(_) => panic!("nothing is wanted"),
        }
    }
    let v = get_global(&vm.machine.globals, "schema");
    let schema = value_shape(&vm.machine.heap, v).unwrap();
    let r = bind(compile(src, &floats).unwrap(), &vm).unwrap().unwrap();
    (schema, r)
}

type Rt = Runtime<Json, HopReducer>;

fn open_on(src: &str, db: Db, log: Vec<Record<Json>>) -> Rt {
    let (schema, r) = booted(src);
    Runtime::open(&FloatTable::new(), db, log, schema, None, r).unwrap()
}

fn open_rt(src: &str) -> Rt {
    open_on(src, Db::new(), Vec::new())
}

fn json(s: &str) -> Json {
    read_json(s).unwrap()
}

fn evidence(id: &str, kind: &str, epoch: u64) -> Json {
    json(&format!(
        "{{\"type\":\"evidence\",\"id\":\"{}\",\"kind\":\"{}\",\"epoch\":{}}}",
        id, kind, epoch
    ))
}

fn append(rt: &mut Rt, event: Json, now: u64) -> Meta {
    rt.append(&FloatTable::new(), event, now).unwrap()
}

fn verify(rt: &Rt) {
    rt.verify(&FloatTable::new()).unwrap();
}

fn field(f: &str) -> Nav {
    Nav::Field(f.to_string())
}

fn text(t: &str) -> Data {
    Data::Text(t.to_string())
}

fn one(rt: &Rt, navs: Vec<Nav>) -> Data {
    rt.one(&FloatTable::new(), &Query::new(navs)).unwrap().unwrap()
}

fn select(rt: &Rt, navs: Vec<Nav>) -> Vec<Data> {
    rt.select(&FloatTable::new(), &Query::new(navs)).unwrap()
}

fn is(d: &Data, e: &Data) -> bool {
    values_eq(d, e)
}

#[test]
fn append_indexes_everything() {
    let mut rt = open_rt(STORE);
    append(&mut rt, evidence("e1", "llm.judgment", 4), 10);
    append(&mut rt, evidence("e2", "git.commit", 5), 20);
    append(
        &mut rt,
        json("{\"type\":\"emission\",\"epoch\":5,\"ranking\":[\"tommy-mor\"]}"),
        30,
    );

    let kind = one(
        &rt,
        vec![field("evidence_by_id"), Nav::Key(text("e1")), field("kind")],
    );
    assert!(is(&kind, &text("llm.judgment")));

    let ids = select(
        &rt,
        vec![field("event_ids_by_kind"), Nav::Key(text("llm.judgment")), Nav::All],
    );
    assert_eq!(ids.len(), 1);

    let latest = one(&rt, vec![field("latest_emission")]);
    match map_get(&latest, &text("ranking")) {
        Data::Array(xs) => assert_eq!(xs.len(), 1),
        other => panic!("{:?}", other),
    }
}

#[test]
fn incremental_equals_replay_from_zero() {
    let mut rt = open_rt(STORE);
    for i in 0..20u64 {
        let kind = if i % 2 == 0 { "llm.judgment" } else { "git.commit" };
        append(&mut rt, evidence(&format!("e{}", i), kind, i), 100 + i);
    }
    verify(&rt);
    rt.rebuild(&FloatTable::new()).unwrap();
    verify(&rt);
    let kinds = select(&rt, vec![field("events"), Nav::All, field("kind")]);
    assert_eq!(kinds.len(), 20);
}

#[test]
fn catch_up_from_existing_log() {
    let mut rt = open_rt(STORE);
    append(&mut rt, evidence("e1", "llm.judgment", 1), 1);
    // reopen: the projection exists and catches up (nothing to do), then takes more
    let mut rt = open_on(STORE, rt.db, rt.log);
    assert_eq!(rt.applied(), 1);
    append(&mut rt, evidence("e2", "git.commit", 2), 2);
    assert_eq!(rt.applied(), 2);
    verify(&rt);
}

#[test]
fn append_keeps_log_len_without_reread() {
    let mut rt = open_rt(STORE);
    for i in 0..50u64 {
        append(&mut rt, evidence(&format!("e{}", i), "llm.judgment", i), i);
    }
    assert_eq!(rt.log_len(), 50);
    assert_eq!(rt.applied(), 50);
    verify(&rt);
}

#[test]
fn ingest_stamps_seq_and_monotonic_ts() {
    let mut rt = open_rt(STORE);
    let a = append(&mut rt, evidence("e1", "llm.judgment", 1), 500);
    let b = append(&mut rt, evidence("e2", "git.commit", 2), 400);
    assert_eq!(a.seq, 0);
    assert_eq!(b.seq, 1);
    assert!(b.ts_ms >= a.ts_ms);
    assert!(a.ts_ms > 0);
    assert_eq!(b.ts_ms, 501);
    assert_eq!(rt.stamps_from(1).len(), 1);

    let line = record_line(&rt.log[0]);
    assert!(line.starts_with("{\"seq\":0,\"ts_ms\":500,\"event\":{"), "{}", line);
    let line = json(&line);
    assert!(matches!(line.member("seq"), Json::Int(0)));
    assert!(matches!(line.member("ts_ms"), Json::Int(500)));
    assert!(matches!(line.member("event").member("type"), Json::Str(s) if s == "evidence"));
    // the event body is nested, not flattened
    assert!(matches!(line.member("type"), Json::Null));
}

#[test]
fn append_batch_is_one_contiguous_seq_run() {
    let mut rt = open_rt(STORE);
    let recs = rt
        .append_batch(
            &FloatTable::new(),
            vec![
                evidence("e0", "llm.judgment", 0),
                evidence("e1", "git.commit", 1),
                evidence("e2", "llm.judgment", 2),
            ],
            &vec![7, 7, 7],
        )
        .unwrap();
    assert_eq!(recs.len(), 3);
    assert_eq!(recs[0].seq, 0);
    assert_eq!(recs[1].seq, 1);
    assert_eq!(recs[2].seq, 2);
    assert!(recs[0].ts_ms <= recs[1].ts_ms && recs[1].ts_ms <= recs[2].ts_ms);
    assert_eq!(recs[2].ts_ms, 9);
    assert_eq!(rt.log_len(), 3);
    assert_eq!(rt.applied(), 3);
    let kinds = select(&rt, vec![field("events"), Nav::All, field("kind")]);
    assert_eq!(kinds.len(), 3);
    verify(&rt);
}

#[test]
fn reducer_sees_ingest_meta() {
    let mut rt = open_rt(STORE);
    append(&mut rt, evidence("e0", "llm.judgment", 0), 40);
    let rec = append(&mut rt, evidence("e1", "llm.judgment", 1), 50);
    assert!(is(&one(&rt, vec![field("last_seq")]), &Data::UInt(rec.seq)));
    assert_eq!(rt.log[1].meta().seq, rec.seq);
    assert_eq!(rt.log[1].meta().ts_ms, rec.ts_ms);
}

#[test]
fn json_events_index_and_replay() {
    let mut rt = open_rt(TODO);
    append(&mut rt, json("{\"type\":\"add\",\"text\":\"milk\"}"), 1);
    append(&mut rt, json("{\"type\":\"add\",\"text\":\"compiler\"}"), 2);
    append(&mut rt, json("{\"type\":\"toggle\",\"id\":0}"), 3);

    let t = one(&rt, vec![field("todos"), Nav::Key(Data::UInt(0)), field("text")]);
    assert!(is(&t, &text("milk")));
    let done = one(&rt, vec![field("todos"), Nav::Key(Data::UInt(0)), field("done")]);
    assert!(is(&done, &Data::Bool(true)));
    let created = one(&rt, vec![field("stats"), field("created")]);
    assert!(is(&created, &Data::UInt(2)));

    verify(&rt);
    rt.rebuild(&FloatTable::new()).unwrap();
    verify(&rt);
}

#[test]
fn reopen_catches_up_from_jsonl() {
    let mut rt = open_rt(TODO);
    append(&mut rt, json("{\"type\":\"add\",\"text\":\"persist me\"}"), 1);
    // only the tape is left
    let rt = open_on(TODO, Db::new(), rt.log);
    assert_eq!(rt.applied(), 1);
    let t = one(&rt, vec![field("todos"), Nav::Key(Data::UInt(0)), field("text")]);
    assert!(is(&t, &text("persist me")));
    verify(&rt);
}

#[test]
fn an_unknown_event_is_the_reducers_error() {
    let mut rt = open_rt(TODO);
    match rt.append(&FloatTable::new(), json("{\"type\":\"what\"}"), 1) {
        Err(e) => assert!(e.message().contains("unknown event what"), "{}", e.message()),
        Ok(_) => panic!("reduced"),
    }
    // the event is on the tape, the projection is behind
    assert_eq!(rt.log_len(), 1);
    assert_eq!(rt.applied(), 0);
}

#[test]
fn each_event_is_applied_once() {
    let floats = FloatTable::new();
    let mut rt = open_rt(TODO);
    let add = || json("{\"type\":\"add\",\"text\":\"x\"}");
    append(&mut rt, add(), 100);
    assert_eq!(rt.applied(), 1);
    append(&mut rt, add(), 90);
    rt.append_batch(&floats, vec![add(), add()], &vec![200, 50]).unwrap();
    assert_eq!(rt.applied(), 4);
    assert_eq!(rt.catch_up(&floats).unwrap(), 0);
    let times: Vec<u64> = rt.stamps_from(0).iter().map(|m| m.ts_ms).collect();
    assert_eq!(times, vec![100, 101, 200, 201]);
    let created = || vec![field("stats"), field("created")];
    assert!(is(&one(&rt, created()), &Data::UInt(4)));
    assert_eq!(rt.rebuild(&floats).unwrap(), 4);
    assert_eq!(rt.applied(), 4);
    append(&mut rt, add(), 300);
    assert!(is(&one(&rt, created()), &Data::UInt(5)));
    verify(&rt);

    // a batch stops at the event that fails; those before it stay applied
    let bad = vec![add(), json("{\"type\":\"what\"}"), add()];
    assert!(rt.append_batch(&floats, bad, &vec![400, 400, 400]).is_err());
    assert_eq!(rt.log_len(), 8);
    assert_eq!(rt.applied(), 6);
    // and nothing goes onto the tape before it is applied
    assert!(rt.append(&floats, add(), 500).is_err());
    assert_eq!(rt.log_len(), 8);
    assert_eq!(rt.applied(), 6);
    assert_eq!(rt.last_ts_ms, 402);
}

#[test]
fn a_tape_that_cannot_be_reduced_does_not_open() {
    let (schema, r) = booted(TODO);
    let log = vec![
        Record { seq: 0, ts_ms: 3, event: json("{\"type\":\"add\",\"text\":\"x\"}") },
        Record { seq: 1, ts_ms: 4, event: json("{\"type\":\"what\"}") },
    ];
    match Runtime::open(&FloatTable::new(), Db::new(), log, schema, None, r) {
        Err(e) => assert!(e.message().contains("unknown event what"), "{}", e.message()),
        Ok(_) => panic!("opened"),
    }
}

#[test]
fn a_float_sum_asks_for_its_total() {
    let mut rt = open_rt(TODO);
    let floats = FloatTable::new();
    let ev = json("{\"type\":\"add\",\"text\":1.5}");
    rt.append(&floats, ev, 1).unwrap();
    let t = one(&rt, vec![field("todos"), Nav::Key(Data::UInt(0)), field("text")]);
    assert!(is(&t, &Data::Float(1.5f64.to_bits())));
}

#[test]
fn timestamps_never_step_backwards() {
    assert_eq!(next_ts(0, 5), 5);
    assert_eq!(next_ts(5, 5), 6);
    assert_eq!(next_ts(9, 5), 10);
    assert_eq!(next_ts(u64::MAX, 5), u64::MAX);
}

#[test]
fn a_tape_is_its_lines_that_are_not_blank() {
    let lines = tape_lines("{\"a\":1}\n\n  \n{\"b\":2}\r\n{\"c\":3}");
    assert_eq!(lines.len(), 3);
    assert_eq!(lines[0], "{\"a\":1}");
    assert_eq!(lines[2], "{\"c\":3}");
}

#[test]
fn verify_tells_a_store_that_is_not_the_tape() {
    let mut rt = open_rt(TODO);
    append(&mut rt, json("{\"type\":\"add\",\"text\":\"milk\"}"), 1);
    rt.db.put(b"stray", b"row");
    match rt.verify(&FloatTable::new()) {
        Err(Error::Query(m)) => assert!(!m.is_empty()),
        _ => panic!("verified"),
    }
}

#[test]
fn a_fact_that_was_learned_is_known() {
    let mut floats = FloatTable::new();
    floats.learn(Fact::OfInt(3, 3f64.to_bits()));
    assert_eq!(floats.of_int(3), Some(3f64.to_bits()));
    assert_eq!(floats.of_int(4), None);
    let ask = Ask::OfInt(4);
    assert!(matches!(ask, Ask::OfInt(4)));
}

#[test]
fn facts_learned_later_change_nothing_before() {
    // the sum of two floats is asked for, learned, and replayed
    let src = r#"
server let schema = store.record([["total", store.sum]]);
fn reduce(event) { store(["total", store.add(event.by)]); }
"#;
    let mut floats = FloatTable::new();
    let mut rt = open_rt(src);
    let by = |x: &str| json(&format!("{{\"type\":\"add\",\"by\":{}}}", x));
    rt.append(&floats, by("0.5"), 1).unwrap();
    assert_eq!(rt.applied(), 1);
    let (a, b) = match rt.append(&floats, by("0.25"), 2) {
        Err(Error::Need(Ask::Arith(BinOp::Add, a, b))) => (a, b),
        other => panic!("{:?}", other),
    };
    // the event is on the tape, and applied once the fact is known
    assert_eq!((rt.log_len(), rt.applied()), (2, 1));
    let sum = f64::from_bits(a) + f64::from_bits(b);
    floats.learn(Fact::Arith(BinOp::Add, a, b, sum.to_bits()));
    assert_eq!(rt.catch_up(&floats).unwrap(), 1);
    assert_eq!(rt.applied(), 2);
    assert!(is(&one(&rt, vec![field("total")]), &Data::Float(0.75f64.to_bits())));
    rt.verify(&floats).unwrap();
}
