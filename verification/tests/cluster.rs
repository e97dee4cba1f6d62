use durable::cluster::{Cluster, Progress};
use durable::compiler::{compile, float_literals};
use durable::data::Data;
use durable::db::Db;
use durable::error::Error;
use durable::float::{Fact, FloatTable};
use durable::ir::{BinOp, Program};
use durable::llm::command_value;
use durable::ranking::connected_components;
use durable::rt::{Vm, Want};
use durable::runtime::Runtime;
use durable::store::{bind, record_line, unavailable, StoreBinding};
use durable::value::{Ask, Heap, NativeId, Try};
use durable::wire::from_cbor;

/// Learns the fact that a machine asks for.
fn learn(floats: &mut FloatTable, ask: Ask) {
    let f = f64::from_bits;
    floats.learn(match ask {
        Ask::Parse(s) => {
            let bits = s.parse::<f64>().ok().map(|x| x.to_bits());
            Fact::Parsed(s, bits)
        }
        Ask::Show(b) => {
            let x = f(b);
            let s = if x.fract() == 0.0 && x.is_finite() {
                format!("{:.1}", x)
            } else {
                format!("{}", x)
            };
            Fact::Shown(b, s)
        }
        Ask::Arith(op, a, b) => {
            let (x, y) = (f(a), f(b));
            let r = match op {
                BinOp::Add => x + y,
                BinOp::Sub => x - y,
                BinOp::Mul => x * y,
                BinOp::Div => x / y,
                _ => x.rem_euclid(y),
            };
            Fact::Arith(op, a, b, r.to_bits())
        }
        Ask::Short(b) => Fact::Short(b, format!("{}", f(b))),
        Ask::OfInt(i) => Fact::OfInt(i, (i as f64).to_bits()),
        Ask::Floor(b) => Fact::Floor(b, f(b).floor() as i64),
        Ask::Scores(ids, votes) => {
            // of each component the first name scores best
            let (components, _) = connected_components(&ids, &votes);
            let falling = |n: usize| (0..n).map(|k| (1.0 / (k + 1) as f64).to_bits()).collect();
            let scores: Vec<Vec<u64>> = components.iter().map(|c| falling(c.len())).collect();
            Fact::Scores(ids, votes, scores)
        }
    });
}

fn program(src: &str) -> Result<Program, String> {
    let mut floats = FloatTable::new();
    for s in float_literals(src) {
        learn(&mut floats, Ask::Parse(s));
    }
    compile(src, &floats)
}

/// A cluster with its store, and what is known of floats.
struct Host {
    cluster: Cluster,
    floats: FloatTable,
    store: Option<StoreBinding>,
    now: u64,
}

impl Host {
    fn new(sessions: &[&str], src: &str) -> Host {
        let mut floats = FloatTable::new();
        for s in float_literals(src) {
            learn(&mut floats, Ask::Parse(s));
        }
        let sessions = sessions.iter().map(|s| s.to_string()).collect();
        let mut host = Host {
            cluster: Cluster::new(&sessions, src, &floats).unwrap(),
            floats,
            store: None,
            now: 1,
        };
        host.pump();
        if let Some(r) = bind(program(src).unwrap(), &host.cluster.vms[0]).unwrap() {
            let schema = schema_of(&host.cluster.vms[0]);
            let rt = Runtime::open(&host.floats, Db::new(), Vec::new(), schema, None, r).unwrap();
            host.store = Some(StoreBinding { rt });
        }
        host
    }

    /// Runs all there is to run.
    fn pump(&mut self) {
        loop {
            match self.cluster.pump(&self.floats, 100_000) {
                Progress::Idle => return,
                Progress::More => {}
                Progress::Need(ask) => learn(&mut self.floats, ask),
                Progress::Bash => self.run_command(),
                Progress::Store => self.serve_store(),
                Progress::Scores => self.score(),
                Progress::Lost(addr) => panic!("no VM at address {}", addr),
                Progress::Undecodable(m) => panic!("undecodable packet: {}", m),
            }
        }
    }

    /// The one vote of the programs is for the first of two.
    fn score(&mut self) {
        let n = match &self.cluster.want {
            Some(Want::Scores { ids, votes }) => connected_components(ids, votes).0.len(),
            _ => panic!("no wish for scores"),
        };
        let scores = vec![vec![1f64.to_bits(), 0f64.to_bits()]; n];
        self.cluster.answer_scores(&self.floats, &scores);
    }

    /// The one command that the programs run.
    fn run_command(&mut self) {
        let cmd = self.cluster.bash.as_ref().unwrap().cmd.clone();
        assert_eq!(cmd, "printf hop_out; printf hop_err 1>&2; exit 3");
        let v = command_value(false, 3, "hop_out", "hop_err");
        self.cluster.answer_bash(&self.floats, v);
    }

    fn serve_store(&mut self) {
        let want = self.cluster.want.as_ref();
        let (id, args) = match want {
            Some(Want::Store { id, args }) => (*id, args.clone()),
            _ => panic!("no wish for the store"),
        };
        let at = self.cluster.at;
        let answer = match &mut self.store {
            None => Err(unavailable(id)),
            Some(b) => {
                let heap = &self.cluster.vms[at].machine.heap;
                if id == NativeId::StoreAppend {
                    self.now += 1;
                    append(b, &mut self.floats, heap, &args, self.now)
                } else {
                    loop {
                        match b.read(&self.floats, heap, id, &args) {
                            Try::Done(d) => break Ok(d),
                            Try::Fail(m) => break Err(m),
                            Try::Need(q) => learn(&mut self.floats, q),
                        }
                    }
                }
            }
        };
        self.cluster.answer_store(answer);
    }

    fn fire(&mut self, addr: &str, entry: &str) {
        assert!(self.cluster.fire(addr, entry));
    }

    fn log(&self) -> String {
        self.cluster.log().join("\n")
    }

    fn call_server(&mut self, name: &str) -> Result<Data, String> {
        self.cluster.call_server(name, &Vec::new())?;
        self.pump();
        self.cluster.server_result().unwrap()
    }

    fn append(&mut self, event: &Data) -> Result<Data, String> {
        let mut heap = Heap::new();
        let v = from_cbor(&mut heap, event)?;
        self.now += 1;
        append(self.store.as_mut().unwrap(), &mut self.floats, &heap, &vec![v], self.now)
    }

    fn store_get(&mut self, path: Vec<Data>) -> Result<Data, String> {
        let mut heap = Heap::new();
        let v = from_cbor(&mut heap, &Data::Array(path))?;
        let b = self.store.as_ref().unwrap();
        loop {
            match b.read(&self.floats, &heap, NativeId::StoreCall, &vec![v]) {
                Try::Done(d) => return Ok(d),
                Try::Fail(m) => return Err(m),
                Try::Need(q) => learn(&mut self.floats, q),
            }
        }
    }

    fn verify(&mut self) {
        loop {
            match self.store.as_ref().unwrap().verify(&self.floats) {
                Ok(_) => return,
                Err(Error::Need(q)) => learn(&mut self.floats, q),
                Err(e) => panic!("{}", e.message()),
            }
        }
    }
}

fn append(
    b: &mut StoreBinding,
    floats: &mut FloatTable,
    heap: &Heap,
    args: &Vec<durable::value::Value>,
    now: u64,
) -> Result<Data, String> {
    match b.append(floats, heap, args, now) {
        Try::Done(d) => Ok(d),
        Try::Fail(m) => Err(m),
        Try::Need(q) => {
            // the event is on the tape; the projection catches up
            let mut ask = q;
            loop {
                learn(floats, ask);
                match b.rt.catch_up(floats) {
                    Ok(_) => return Ok(Data::UInt(b.rt.log_len() - 1)),
                    Err(Error::Need(q)) => ask = q,
                    Err(e) => return Err(e.message()),
                }
            }
        }
    }
}

fn schema_of(vm: &Vm) -> durable::shape::Shape {
    let v = durable::interp::get_global(&vm.machine.globals, "schema");
    durable::store::value_shape(&vm.machine.heap, v).unwrap()
}

fn s(x: &str) -> Data {
    Data::Text(x.to_string())
}

fn same(a: &Data, b: &Data) -> bool {
    durable::query::values_eq(a, b)
}

#[test]
fn while_loops_run() {
    let src = r#"
        fn go() {
          let n = 3;
          let acc = "";
          while n > 0 {
            acc = acc .. n;
            n = n - 1;
          }
          print("acc " .. acc);
          while false {
            print("never");
          }
        }
    "#;
    let mut host = Host::new(&["A"], src);
    host.fire("A", "go");
    host.pump();
    let all = host.log();
    assert!(all.contains("acc 321"), "{}", all);
    assert!(!all.contains("never"), "{}", all);
    assert_eq!(all, "[browser A] acc 321");
}

#[test]
fn json_and_type_natives() {
    let src = r#"
        fn go() {
          let v = json.decode("{\"a\":1,\"b\":[true,null]}");
          print(type(v) .. " a=" .. v.a);
          print(json.encode(v));
          print("bad=" .. type(json.decode("not json")));
          print("scalar=" .. type(json.decode("42")));
        }
    "#;
    let mut host = Host::new(&["A"], src);
    host.fire("A", "go");
    host.pump();
    let all = host.log();
    assert!(all.contains("map a=1"), "{}", all);
    assert!(all.contains(r#"{"a":1,"b":[true,null]}"#), "{}", all);
    assert!(all.contains("bad=nil"), "{}", all);
    assert!(all.contains("scalar=int"), "{}", all);
}

#[test]
fn match_dispatches_on_type_and_destructures() {
    let src = r#"
        fn handle(event) {
          match event {
            add { text, n } => {
              print("add " .. text .. " x" .. n);
            }
            toggle { id } => {
              // the subject stays in scope alongside the destructured fields
              print("toggle " .. id .. " (" .. event.type .. ")");
            }
          }
        }
        fn go() {
          handle({ type = "add", text = "milk", n = 2 });
          handle({ type = "toggle", id = 7 });
        }
    "#;
    let mut host = Host::new(&["A"], src);
    host.fire("A", "go");
    host.pump();
    assert!(host.cluster.quiescent().is_ok());
    let all = host.log();
    assert!(all.contains("add milk x2"), "{}", all);
    assert!(all.contains("toggle 7 (toggle)"), "{}", all);
}

#[test]
fn match_else_arm_and_no_match_fall_through() {
    let src = r#"
        fn classify(event) {
          match event {
            known => { print("known"); }
            else => { print("other " .. event.type); }
          }
          // no matching arm and no else: the whole match is a no-op
          match event {
            never => { print("never"); }
          }
          print("after " .. event.type);
        }
        fn go() {
          classify({ type = "known" });
          classify({ type = "mystery" });
        }
    "#;
    let mut host = Host::new(&["A"], src);
    host.fire("A", "go");
    host.pump();
    assert!(host.cluster.quiescent().is_ok());
    let all = host.log();
    assert!(all.contains("known"), "{}", all);
    assert!(all.contains("other mystery"), "{}", all);
    assert!(all.contains("after known"), "{}", all);
    assert!(all.contains("after mystery"), "{}", all);
    assert!(!all.contains("never"), "unmatched arm ran:\n{}", all);
}

#[test]
fn bash_effect_suspends_and_replies() {
    let src = r#"
        fn go() {
          server!();
          let r = bash("printf hop_out; printf hop_err 1>&2; exit 3");
          print("ok=" .. tostring(r.ok) .. " status=" .. r.status
                .. " out=" .. r.stdout .. " err=" .. r.stderr);
        }
    "#;
    let mut host = Host::new(&["A"], src);
    host.fire("A", "go");
    host.pump();
    assert!(host.cluster.quiescent().is_ok());
    let all = host.log();
    assert!(all.contains("ok=false status=3 out=hop_out err=hop_err"), "{}", all);
}

#[test]
fn effects_are_server_side_only() {
    let src = r#"fn go() { bash("echo nope"); }"#;
    let mut host = Host::new(&["A"], src);
    host.fire("A", "go");
    host.pump();
    let all = host.log();
    assert!(all.contains("server-side only"), "{}", all);
    assert!(!all.contains("nope\n"), "{}", all);
}

/// A few flows that hop and cast.
const DEMO: &str = r##"
server let taken = { alice = true };
server let colors = ["tomato", "steelblue"];
server let joined = {};

fn demo_join() {
  server!();
  let sid = session();
  joined[sid] = colors[len(joined)];
  print("session " .. sid .. " joins as " .. joined[sid]);
}

fn check_handle(handle) {
  server!();
  if handle == "root" { error("reserved handle"); }
  let ok = taken[handle] == nil;
  browser!();
  if ok {
    print("-> '" .. handle .. "' is available");
  } else {
    print("-> '" .. handle .. "' is taken");
  }
}

fn delete_account() {
  server!();
  let n = 3;
  browser!();
  print("[dialog] really delete " .. n .. " items?");
  let yes = true;
  server!();
  let msg = "kept";
  if yes { msg = "deleted " .. n .. " items"; }
  print("purged data for session " .. session());
  browser!();
  print("account: " .. msg);
}

fn stroke(from, to) {
  cast server {
    let color = joined[session()];
    cast browsers {
      print("draw " .. from .. " -> " .. to .. " in " .. color);
    }
  }
}

fn demo_flows() {
  spawn check_handle("carol");
  spawn check_handle("alice");
  spawn check_handle("root");
  spawn delete_account();
}

fn demo_stroke() {
  stroke("(1,1)", "(2,3)");
}
"##;

#[test]
fn liveness_ships_only_what_the_remainder_uses() {
    let mut host = Host::new(&["A", "B"], DEMO);
    host.fire("A", "demo_join");
    host.fire("B", "demo_join");
    host.pump();
    host.fire("A", "demo_flows");
    host.pump();
    host.fire("B", "demo_stroke");
    host.pump();
    assert!(host.cluster.quiescent().is_ok());
    let all = host.log();
    let has = |needle: &str| {
        assert!(all.contains(needle), "wire missing {:?}:\n{}", needle, all);
    };
    has(r#"check_handle:1 vars={handle: "carol"}"#);
    has(r#"check_handle:2 vars={handle: "carol", ok: true}"#);
    has("delete_account:1 vars={}");
    has("delete_account:2 vars={n: 3}");
    has("delete_account:3 vars={n: 3, yes: true}");
    has(r#"delete_account:4 vars={msg: "deleted 3 items"}"#);
    has(r#"stroke:c1 vars={from: "(1,1)", to: "(2,3)"}"#);
    has(r#"stroke:c2 vars={color: "steelblue", from: "(1,1)", to: "(2,3)"}"#);
}

#[test]
fn demo_app_transcript() {
    let mut host = Host::new(&["A", "B"], DEMO);
    host.fire("A", "demo_join");
    host.fire("B", "demo_join");
    host.pump();
    host.fire("A", "demo_flows");
    host.pump();
    host.fire("B", "demo_stroke");
    host.pump();
    assert!(host.cluster.quiescent().is_ok());
    let all = host.log();
    let has = |needle: &str| {
        assert!(all.contains(needle), "transcript missing {:?}:\n{}", needle, all);
    };
    // sessions joined with server-assigned colors
    has("session A joins as tomato");
    has("session B joins as steelblue");
    has("-> 'carol' is available");
    has("-> 'alice' is taken");
    has("reserved handle");
    has("[dialog] really delete 3 items?");
    has("purged data for session A");
    has("account: deleted 3 items");
    has("[browser A] draw (1,1) -> (2,3) in steelblue");
    has("[browser B] draw (1,1) -> (2,3) in steelblue");
}

#[test]
fn flows_start_in_the_order_of_their_events() {
    let src = r#"
        fn twice() { print("one"); print("two"); }
        fn last() { print("three"); }
        fn nine() { print("asked"); return 9; }
    "#;
    let mut host = Host::new(&["A", "B"], src);
    host.fire("B", "twice");
    host.fire("A", "twice");
    host.fire("B", "last");
    assert!(matches!(host.call_server("nine"), Ok(Data::UInt(9))));
    assert_eq!(
        host.log(),
        "[browser B] one\n[browser B] two\n[browser A] one\n[browser A] two\n\
         [browser B] three\n[server] asked"
    );
    assert!(!host.cluster.fire("C", "last"));
    assert!(host.cluster.waiting.is_empty());
}

#[test]
fn the_wire_is_in_the_transcript() {
    let src = r#"
        fn go(n) {
          server!();
          let m = n + 1;
          browser!();
          print("got " .. m);
        }
        fn start() { go(41); }
    "#;
    let mut host = Host::new(&["A"], src);
    host.fire("A", "start");
    host.pump();
    assert_eq!(
        host.cluster.log(),
        vec![
            "        ~ wire       A -> server   call  go:1 vars={n: 41}",
            "        ~ wire  server -> A        call  go:2 vars={m: 42}",
            "[browser A] got 42",
            "        ~ wire       A -> server   reply value=nil",
            "        ~ wire  server -> A        reply value=nil",
        ]
    );
    assert!(host.cluster.quiescent().is_ok());
}

const TODO: &str = r##"
server let schema = store.record([
  ["todos", store.map(store.record([
    ["text", store.leaf],
    ["done", store.leaf]
  ]))],
  ["stats", store.record([
    ["created", store.sum],
    ["completed", store.sum]
  ])]
]);

fn reduce(event) {
  match event {
    add { text } => {
      store(["todos", event.seq, store.set({ text = text, done = false })]);
      store(["stats", "created", store.add(1)]);
    }
    toggle { id } => {
      let next = store(["todos", id, "done"]) != true;
      store(["todos", id, "done", store.set(next)]);
      if next {
        store(["stats", "completed", store.add(1)]);
      } else {
        store(["stats", "completed", store.add(-1)]);
      }
    }
  }
}

fn todo_view(items, all, ticked) {
  let rows = [];
  for i, item in items {
    let id = item.id;
    let class = "open";
    if item.done { class = "done"; }
    push(rows, [:li, { class = class, onclick = fn(e) {
      server!();
      store.append({ type = "toggle", id = id });
      let snapshot = store.items(["todos"]);
      let created = store(["stats", "created"]);
      let completed = store(["stats", "completed"]);
      cast browsers {
        hui.render("#app", todo_view(snapshot, created, completed));
      }
    } }, item.text]);
  }
  return [:div,
    [:button, { onclick = fn(e) { add_todo("more"); } }, "add"],
    [:ul, rows],
    [:p, ticked .. " done of " .. all]];
}

fn add_todo(text) {
  server!();
  store.append({ type = "add", text = text });
  let snapshot = store.items(["todos"]);
  let created = store(["stats", "created"]);
  let completed = store(["stats", "completed"]);
  cast browsers {
    hui.render("#app", todo_view(snapshot, created, completed));
  }
}

fn sim_demo() {
  add_todo("buy milk");
  add_todo("write the compiler");
}
"##;

#[test]
fn todo_app_runs_on_simulated_cluster() {
    let mut host = Host::new(&["A", "B"], TODO);
    host.fire("A", "sim_demo");
    host.pump();

    // Renders go to #app. After two adds the first item's onclick is
    // handler 4 (render 1 mints button=1, milk=2; render 2 mints button=3,
    // milk=4, compiler=5).
    assert!(host.cluster.fire_handler("A", 4));
    host.pump();
    assert!(host.cluster.quiescent().is_ok());

    for tab in ["A", "B"] {
        let app = host.cluster.dom(tab, "#app");
        assert!(app.contains("buy milk"), "tab {}: {}", tab, app);
        assert!(app.contains("write the compiler"), "tab {}: {}", tab, app);
        assert!(app.contains("class=\"done\""), "tab {} missing struck-through milk: {}", tab, app);
        assert!(app.contains("1 done of 2"), "tab {} stats: {}", tab, app);
    }
}

#[test]
fn lambda_with_marks_ships_only_its_captures() {
    // the onclick lambda hops to the server carrying only the id it
    // captured: not item, rows, or the items array
    let mut host = Host::new(&["A"], TODO);
    host.fire("A", "sim_demo");
    host.pump();
    assert!(host.cluster.fire_handler("A", 4));
    host.pump();
    assert!(host.cluster.quiescent().is_ok());

    let all = host.log();
    assert!(all.contains("todo_view:l1:1 vars={id: 0}"), "{}", all);
    // its cast carries the snapshot back out
    assert!(all.contains("todo_view:c1 vars={completed: 1, created: 2, snapshot:"), "{}", all);
}

#[test]
fn rebuild_from_tape_matches_live() {
    let mut host = Host::new(&["A"], TODO);
    host.fire("A", "sim_demo");
    host.pump();
    let floats = &host.floats;
    assert!(host.store.as_mut().unwrap().rt.rebuild(floats).is_ok());
    host.verify();
    let created = host.store_get(vec![s("stats"), s("created")]).unwrap();
    assert!(same(&created, &Data::UInt(2)));
}

#[test]
fn todo_persists_across_reopen_and_verifies() {
    let mut host = Host::new(&["A"], TODO);
    host.fire("A", "sim_demo");
    host.pump();
    assert!(host.cluster.quiescent().is_ok());
    assert_eq!(host.store.as_ref().unwrap().rt.applied(), 2);
    let milk = host.store_get(vec![s("todos"), Data::UInt(0), s("text")]).unwrap();
    assert!(same(&milk, &s("buy milk")));
    host.verify();

    // the same tape in a new process: catch-up restores the projection
    let old = host.store.take().unwrap().rt;
    let mut host = Host::new(&["A"], TODO);
    let r = host.store.take().unwrap().rt.reducer;
    let schema = schema_of(&host.cluster.vms[0]);
    let rt = Runtime::open(&host.floats, Db::new(), old.log, schema, None, r).unwrap();
    host.store = Some(StoreBinding { rt });
    assert_eq!(host.store.as_ref().unwrap().rt.applied(), 2);
    let milk = host.store_get(vec![s("todos"), Data::UInt(0), s("text")]).unwrap();
    assert!(same(&milk, &s("buy milk")));
    let second = host.store_get(vec![s("todos"), Data::UInt(1), s("text")]).unwrap();
    assert!(same(&second, &s("write the compiler")));
    host.verify();
    let rt = &host.store.as_ref().unwrap().rt;
    assert_eq!(rt.log_len(), 2);
    let tape: Vec<String> = rt.log.iter().map(record_line).collect();
    assert!(tape.join("\n").contains(r#""type":"add""#), "{:?}", tape);
    assert_eq!(tape.iter().filter(|l| !l.trim().is_empty()).count(), 2);
}

// where/slice are parametrized navigators: plain data in the path.
const FILTERED: &str = r#"
server let schema = store.record([
  ["todos", store.map(store.record([
    ["text", store.leaf],
    ["done", store.leaf]
  ]))]
]);

fn reduce(event) {
  if event.type == "add" {
    store(["todos", event.seq, store.set({ text = event.text, done = event.done })]);
  }
}

fn open_texts() {
  return store(["todos", store.where("done", false), "text"]);
}

fn late_texts() {
  return store(["todos", store.slice(1), "text"]);
}
"#;

#[test]
fn where_and_slice_navigators_filter_queries() {
    let mut host = Host::new(&["A"], FILTERED);
    for (text, done) in [("milk", true), ("eggs", false), ("bread", false)] {
        host.append(&Data::Dict(vec![
            (s("type"), s("add")),
            (s("text"), s(text)),
            (s("done"), Data::Bool(done)),
        ]))
        .unwrap();
    }
    let want = Data::Array(vec![s("eggs"), s("bread")]);
    let open = host.call_server("open_texts").unwrap();
    assert!(same(&open, &want));
    let late = host.call_server("late_texts").unwrap();
    assert!(same(&late, &want));
}

#[test]
fn the_simulated_model_streams_in_two_parts() {
    let src = r#"
        fn go() {
          server!();
          let h = llm.stream({ messages = [{ role = "user", content = "hello" }] });
          let text = "";
          let n = 0;
          let more = true;
          while more {
            let r = llm.next(h);
            if r.done {
              more = false;
              print("done " .. r.text);
            } else {
              n = n + 1;
              text = text .. r.delta;
            }
          }
          print(n .. " parts: " .. text);
          let m = llm.models();
          print(m.models[1]);
          let one = llm.call({ messages = [{ content = "CALL: ls \"x\"" }] });
          print(one.tool_calls[0].args);
        }
    "#;
    let mut host = Host::new(&["A"], src);
    host.fire("A", "go");
    host.pump();
    let all = host.log();
    assert!(all.contains("done echo: hello"), "{}", all);
    assert!(all.contains("2 parts: echo: hello"), "{}", all);
    assert!(all.contains("fake/beta"), "{}", all);
    assert!(all.contains(r#"{"cmd":"ls \"x\""}"#), "{}", all);
    assert!(host.cluster.quiescent().is_ok());
}

#[test]
fn a_cast_to_the_browsers_reaches_them_in_order() {
    let src = r#"
        fn go() { cast browsers { print("hi"); } }
    "#;
    let mut host = Host::new(&["B", "A"], src);
    host.fire("server", "go");
    host.pump();
    let log = host.cluster.log();
    assert_eq!(log[1], "[browser A] hi");
    assert_eq!(log[2], "[browser B] hi");
}

#[test]
fn the_page_is_kept_per_browser() {
    let src = r##"
        fn go() { dom.set("#x", "<b>" .. dom.get("#in") .. "</b>"); dom.clear("#in"); dom.focus("#in"); }
    "##;
    let mut host = Host::new(&["A", "B"], src);
    host.cluster.set_dom("A", "#in", "typed");
    host.fire("A", "go");
    host.pump();
    assert_eq!(host.cluster.dom("A", "#x"), "<b>typed</b>");
    assert_eq!(host.cluster.dom("A", "#in"), "");
    assert_eq!(host.cluster.dom("B", "#x"), "");
    let all = host.log();
    assert!(all.contains("[browser A] [dom] #x := <b>typed</b>"), "{}", all);
    assert!(all.contains("[browser A] [dom] focus #in"), "{}", all);
}

#[test]
fn nobody_is_at_an_unknown_address() {
    let mut host = Host::new(&["A"], "fn go() { print(\"x\"); }");
    assert!(!host.cluster.fire("Z", "go"));
    assert!(!host.cluster.fire_handler("Z", 1));
}

#[test]
fn a_browser_has_no_store() {
    let src = "fn go() { store.append({ type = \"add\" }); }";
    let mut host = Host::new(&["A"], src);
    host.fire("A", "go");
    host.pump();
    let all = host.log();
    assert!(all.contains("StoreAppend is not available on this side"), "{}", all);
}

#[test]
fn a_program_that_does_not_compile_makes_no_cluster() {
    assert!(Cluster::new(&vec!["A".to_string()], "fn (", &FloatTable::new()).is_err());
}

#[test]
fn modules_read_what_models_say() {
    let src = r##"
        fn go() {
          let v = json.first("sure: {\"tool\": \"bash\", \"n\": [1, 2]} done {");
          print(v.tool .. " " .. json.encode(v));
          print(type(json.first("no { object")));
          print(rank.before("hello [Response] x", "[Response]"));
          print(rank.strip("<thought>hi</thought>"));
          print(tostring(rank.parse_score("I say 7")));
          hui.render("#x", markdown("**b** & `c`"));
        }
    "##;
    let mut host = Host::new(&["A"], src);
    host.fire("A", "go");
    host.pump();
    let log = host.cluster.log();
    assert_eq!(log[0], "[browser A] bash {\"n\":[1,2],\"tool\":\"bash\"}");
    assert_eq!(log[1], "[browser A] nil");
    assert_eq!(log[2], "[browser A] hello");
    assert_eq!(log[3], "[browser A] hi");
    assert_eq!(log[4], "[browser A] 7");
    let x = host.cluster.dom("A", "#x");
    assert!(x.contains("<strong>b</strong> &amp; <code>c</code>"), "{}", x);
}

#[test]
fn programs_rank_by_votes() {
    let src = r#"
        fn go() {
          let ids = ["a", "b", "c"];
          let votes = [{ a_id = "a", b_id = "b", score = 50 }];
          for i, r in rank.score(ids, votes) {
            print(r.id .. " " .. r.score);
          }
          let out = rank.finalize(ids, ids, votes, 1);
          print(json.encode(out));
          print(json.encode(rank.components(ids, votes)));
          print(json.encode(rank.finalize(ids, [], votes, 5)));
        }
        fn bad() { rank.finalize([], [], [], 0); }
    "#;
    let mut host = Host::new(&["A"], src);
    host.fire("A", "go");
    host.pump();
    let log = host.cluster.log();
    assert_eq!(log[0], "[browser A] a 1.0");
    assert_eq!(log[1], "[browser A] b 0.0");
    assert_eq!(log[2], "[browser A] c 0.0");
    assert_eq!(
        log[3],
        "[browser A] {\"kept\":[\"a\"],\"released\":[\"b\",\"c\"],\"skip\":false}"
    );
    assert_eq!(log[4], "[browser A] {\"groups\":[[\"a\",\"b\"]],\"isolates\":[\"c\"]}");
    host.fire("A", "bad");
    host.pump();
    let all = host.log();
    assert!(all.contains("compaction budget must be at least 1"), "{}", all);
}
