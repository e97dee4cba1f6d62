use durable::cluster::{Cluster, Progress};
use durable::compiler::{compile, float_literals};
use durable::data::Data;
use durable::db::Db;
use durable::error::Error;
use durable::float::{Fact, FloatTable};
use durable::ir::{BinOp, Program};
use durable::llm::command_value;
use durable::ranking::connected_components;
use durable::rt::{Vm, Want};
use durable::runtime::Runtime;
use durable::store::{bind, unavailable, StoreBinding};
use durable::value::{Ask, Heap, NativeId, Try};
use durable::wire::from_cbor;

/// Learns the fact that a machine asks for.
fn learn(floats: &mut FloatTable, ask: Ask) {
    let f = f64::from_bits;
    floats.learn(match ask {
        Ask::Parse(s) => {
            let bits = s.parse::<f64>().ok().map(|x| x.to_bits());
            Fact::Parsed(s, bits)
        }
        Ask::Show(b) => {
            let x = f(b);
            let s = if x.fract() == 0.0 && x.is_finite() {
                format!("{:.1}", x)
            } else {
                format!("{}", x)
            };
            Fact::Shown(b, s)
        }
        Ask::Arith(op, a, b) => {
            let (x, y) = (f(a), f(b));
            let r = match op {
                BinOp::Add => x + y,
                BinOp::Sub => x - y,
                BinOp::Mul => x * y,
                BinOp::Div => x / y,
                _ => x.rem_euclid(y),
            };
            Fact::Arith(op, a, b, r.to_bits())
        }
        Ask::Short(b) => Fact::Short(b, format!("{}", f(b))),
        Ask::OfInt(i) => Fact::OfInt(i, (i as f64).to_bits()),
        Ask::Floor(b) => Fact::Floor(b, f(b).floor() as i64),
        Ask::Scores(ids, votes) => {
            // of each component the first name scores best
            let (components, _) = connected_components(&ids, &votes);
            let falling = |n: usize| (0..n).map(|k| (1.0 / (k + 1) as f64).to_bits()).collect();
            let scores: Vec<Vec<u64>> = components.iter().map(|c| falling(c.len())).collect();
            Fact::Scores(ids, votes, scores)
        }
    });
}

fn program(src: &str) -> Result<Program, String> {
    let mut floats = FloatTable::new();
    for s in float_literals(src) {
        learn(&mut floats, Ask::Parse(s));
    }
    compile(src, &floats)
}

/// A cluster with its store, and what is known of floats.
struct Host {
    cluster: Cluster,
    floats: FloatTable,
    store: Option<StoreBinding>,
    now: u64,
}

impl Host {
    fn new(sessions: &[&str], src: &str) -> Host {
        let mut floats = FloatTable::new();
        for s in float_literals(src) {
            learn(&mut floats, Ask::Parse(s));
        }
        let sessions = sessions.iter().map(|s| s.to_string()).collect();
        let mut host = Host {
            cluster: Cluster::new(&sessions, src, &floats).unwrap(),
            floats,
            store: None,
            now: 1,
        };
        host.pump();
        if let Some(r) = bind(program(src).unwrap(), &host.cluster.vms[0]).unwrap() {
            let schema = schema_of(&host.cluster.vms[0]);
            let rt = Runtime::open(&host.floats, Db::new(), Vec::new(), schema, None, r).unwrap();
            host.store = Some(StoreBinding { rt });
        }
        host
    }

    /// Runs all there is to run.
    fn pump(&mut self) {
        loop {
            match self.cluster.pump(&self.floats, 100_000) {
                Progress::Idle => return,
                Progress::More => {}
                Progress::Need(ask) => learn(&mut self.floats, ask),
                Progress::Bash => self.run_command(),
                Progress::Store => self.serve_store(),
                Progress::Scores => panic!("no program ranks"),
                Progress::Lost(addr) => panic!("no VM at address {}", addr),
                Progress::Undecodable(m) => panic!("undecodable packet: {}", m),
            }
        }
    }

    /// The programs run `echo` and nothing else.
    fn run_command(&mut self) {
        let cmd = self.cluster.bash.as_ref().unwrap().cmd.clone();
        let said = cmd.strip_prefix("echo ").unwrap();
        let v = command_value(true, 0, &format!("{}\n", said), "");
        self.cluster.answer_bash(&self.floats, v);
    }

    fn serve_store(&mut self) {
        let want = self.cluster.want.as_ref();
        let (id, args) = match want {
            Some(Want::Store { id, args }) => (*id, args.clone()),
            _ => panic!("no wish for the store"),
        };
        let at = self.cluster.at;
        let answer = match &mut self.store {
            None => Err(unavailable(id)),
            Some(b) => {
                let heap = &self.cluster.vms[at].machine.heap;
                if id == NativeId::StoreAppend {
                    self.now += 1;
                    append(b, &mut self.floats, heap, &args, self.now)
                } else {
                    loop {
                        match b.read(&self.floats, heap, id, &args) {
                            Try::Done(d) => break Ok(d),
                            Try::Fail(m) => break Err(m),
                            Try::Need(q) => learn(&mut self.floats, q),
                        }
                    }
                }
            }
        };
        self.cluster.answer_store(answer);
    }

    fn fire(&mut self, addr: &str, entry: &str) {
        assert!(self.cluster.fire(addr, entry));
    }

    fn log(&self) -> String {
        self.cluster.log().join("\n")
    }

    fn call_server(&mut self, name: &str, args: Vec<Data>) -> Result<Data, String> {
        self.cluster.call_server(name, &args)?;
        self.pump();
        self.cluster.server_result().unwrap()
    }

    fn append(&mut self, event: &Data) -> Result<Data, String> {
        let mut heap = Heap::new();
        let v = from_cbor(&mut heap, event)?;
        self.now += 1;
        append(self.store.as_mut().unwrap(), &mut self.floats, &heap, &vec![v], self.now)
    }

    fn store_get(&mut self, path: Vec<Data>) -> Result<Data, String> {
        let mut heap = Heap::new();
        let v = from_cbor(&mut heap, &Data::Array(path))?;
        let b = self.store.as_ref().unwrap();
        loop {
            match b.read(&self.floats, &heap, NativeId::StoreCall, &vec![v]) {
                Try::Done(d) => return Ok(d),
                Try::Fail(m) => return Err(m),
                Try::Need(q) => learn(&mut self.floats, q),
            }
        }
    }

    fn verify(&mut self) {
        loop {
            match self.store.as_ref().unwrap().verify(&self.floats) {
                Ok(_) => return,
                Err(Error::Need(q)) => learn(&mut self.floats, q),
                Err(e) => panic!("{}", e.message()),
            }
        }
    }
}

fn append(
    b: &mut StoreBinding,
    floats: &mut FloatTable,
    heap: &Heap,
    args: &Vec<durable::value::Value>,
    now: u64,
) -> Result<Data, String> {
    match b.append(floats, heap, args, now) {
        Try::Done(d) => Ok(d),
        Try::Fail(m) => Err(m),
        Try::Need(q) => {
            // the event is on the tape; the projection catches up
            let mut ask = q;
            loop {
                learn(floats, ask);
                match b.rt.catch_up(floats) {
                    Ok(_) => return Ok(Data::UInt(b.rt.log_len() - 1)),
                    Err(Error::Need(q)) => ask = q,
                    Err(e) => return Err(e.message()),
                }
            }
        }
    }
}

fn schema_of(vm: &Vm) -> durable::shape::Shape {
    let v = durable::interp::get_global(&vm.machine.globals, "schema");
    durable::store::value_shape(&vm.machine.heap, v).unwrap()
}

fn s(x: &str) -> Data {
    Data::Text(x.to_string())
}

fn same(a: &Data, b: &Data) -> bool {
    durable::query::values_eq(a, b)
}

fn i(x: i64) -> Data {
    if x < 0 {
        Data::NInt((-1 - x) as u64)
    } else {
        Data::UInt(x as u64)
    }
}

fn map(entries: &[(&str, Data)]) -> Data {
    let copy = durable::data::copy_data;
    Data::Dict(entries.iter().map(|(k, v)| (s(k), copy(v))).collect())
}

fn arr_len(v: &Data) -> usize {
    match v {
        Data::Array(a) => a.len(),
        Data::Null => 0,
        other => panic!("expected array, got {:?}", other),
    }
}

fn field(v: &Data, name: &str) -> Data {
    match v {
        Data::Dict(m) => {
            let found = m.iter().find(|(k, _)| same(k, &s(name)));
            found.map(|(_, v)| durable::data::copy_data(v)).unwrap_or(Data::Null)
        }
        _ => Data::Null,
    }
}

fn text(v: &Data) -> String {
    match v {
        Data::Text(t) => t.clone(),
        other => panic!("expected text, got {:?}", other),
    }
}

const RANKING: &str = r##"
server let schema = store.record([
  ["scopes", store.map(store.record([
    ["votes", store.sum],
    ["edges", store.map(store.sum)]
  ]))]
]);

fn reduce(event) {
  match event {
    vote { scope, winner, loser } => {
      store(["scopes", scope, "votes", store.add(1)]);
      store(["scopes", scope, "edges", winner .. ">" .. loser, store.add(1)]);
    }
    decay { scope } => {
      for edge, weight in store(["scopes", scope, "edges"]) {
        store(["scopes", scope, "edges", edge, store.set(weight * 0.9)]);
      }
    }
  }
}

fn vote(scope, winner, loser) {
  server!();
  store.append({ type = "vote", scope = scope, winner = winner, loser = loser });
}

fn sim_demo() {
  vote("tools", "ripgrep", "grep");
  vote("tools", "ripgrep", "ack");
  vote("tools", "fd", "find");
}
"##;

#[test]
fn ranking_votes_and_decay() {
    let mut host = Host::new(&["A", "B"], RANKING);
    host.fire("A", "sim_demo");
    host.pump();
    assert!(host.cluster.quiescent().is_ok());

    let votes = host.store_get(vec![s("scopes"), s("tools"), s("votes")]).unwrap();
    assert!(same(&votes, &i(3)));
    let edge = || vec![s("scopes"), s("tools"), s("edges"), s("ripgrep>grep")];
    assert!(same(&host.store_get(edge()).unwrap(), &i(1)));

    // decay is a server-only append (no hop). verify replay after.
    host.append(&map(&[("type", s("decay")), ("scope", s("tools"))])).unwrap();
    host.verify();
    match host.store_get(edge()).unwrap() {
        Data::Float(b) => assert!((f64::from_bits(b) - 0.9).abs() < 1e-9),
        other => panic!("expected float edge after decay, got {:?}", other),
    }
}

const MICROBLOG: &str = r##"
server let schema = store.record([
  ["users", store.map(store.record([
    ["name", store.leaf],
    ["followers", store.map(store.leaf)]
  ]))],
  ["posts", store.map(store.record([
    ["author", store.leaf],
    ["text", store.leaf]
  ]))],
  ["post_count", store.sum],
  ["timelines", store.map(store.list(store.leaf))]
]);

fn reduce(event) {
  match event {
    join { sid, name } => { store(["users", sid, "name", store.set(name)]); }
    follow { sid, who } => { store(["users", who, "followers", sid, store.set(true)]); }
    post { sid, text } => {
      store(["posts", event.seq, store.set({ author = sid, text = text })]);
      store(["post_count", store.add(1)]);
      store(["timelines", sid, store.push(event.seq)]);
      for follower, on in store(["users", sid, "followers"]) {
        store(["timelines", follower, store.push(event.seq)]);
      }
    }
  }
}
"##;

#[test]
fn microblog_fans_out_on_write() {
    let mut host = Host::new(&["A", "B"], MICROBLOG);
    host.append(&map(&[("type", s("join")), ("sid", s("A")), ("name", s("Ada"))])).unwrap();
    host.append(&map(&[("type", s("join")), ("sid", s("B")), ("name", s("Bob"))])).unwrap();
    host.append(&map(&[("type", s("follow")), ("sid", s("B")), ("who", s("A"))])).unwrap();
    host.append(&map(&[("type", s("post")), ("sid", s("A")), ("text", s("hello tape"))])).unwrap();

    let count = host.store_get(vec![s("post_count")]).unwrap();
    assert!(same(&count, &i(1)));

    // A's own timeline and B's (follower) both got the post id (seq 3:
    // join, join, follow, post).
    let a_tl = host.store_get(vec![s("timelines"), s("A")]).unwrap();
    let b_tl = host.store_get(vec![s("timelines"), s("B")]).unwrap();
    assert_eq!(arr_len(&a_tl), 1, "author timeline");
    assert_eq!(arr_len(&b_tl), 1, "follower timeline");
    let said = host.store_get(vec![s("posts"), i(3), s("text")]).unwrap();
    assert!(same(&said, &s("hello tape")));
    host.verify();
}

const CHAT: &str = r##"
server let schema = store.record([
  ["rooms", store.map(store.record([
    ["messages", store.list(store.leaf)]
  ]))]
]);

fn reduce(event) {
  match event {
    say { sid, room, text } => {
      store(["rooms", room, "messages", store.push({ sid = sid, text = text })]);
    }
  }
}

fn say(room, text) {
  let sid = session();
  server!();
  store.append({ type = "say", sid = sid, room = room, text = text });
}

fn sim_demo() {
  say("lobby", "hello");
}
"##;

#[test]
fn chat_rooms_are_isolated_lists() {
    let mut host = Host::new(&["A", "B"], CHAT);
    host.fire("A", "sim_demo");
    host.pump();

    host.append(&map(&[
        ("type", s("say")),
        ("sid", s("B")),
        ("room", s("lobby")),
        ("text", s("hi ada")),
    ]))
    .unwrap();
    host.append(&map(&[
        ("type", s("say")),
        ("sid", s("B")),
        ("room", s("random")),
        ("text", s("psst")),
    ]))
    .unwrap();

    let lobby = host.store_get(vec![s("rooms"), s("lobby"), s("messages")]).unwrap();
    assert_eq!(arr_len(&lobby), 2);
    let random = host.store_get(vec![s("rooms"), s("random"), s("messages")]).unwrap();
    assert_eq!(arr_len(&random), 1);
    host.verify();
}

const AGENT: &str = r##"
server let schema = store.record([
  ["msgs", store.list(store.leaf)],
  ["pending", store.leaf],
  ["auto", store.leaf]
]);

fn reduce(event) {
  match event {
    user { text } => { store(["msgs", store.push({ role = "user", text = text })]); }
    assistant { text } => { store(["msgs", store.push({ role = "assistant", text = text })]); }
    request { cmd } => {
      store(["msgs", store.push({ role = "tool_request", text = cmd })]);
      store(["pending", store.set(cmd)]);
    }
    tool { text } => {
      store(["msgs", store.push({ role = "tool", text = text })]);
      store(["pending", store.del]);
    }
    auto => { store(["auto", store.set(store(["auto"]) != true)]); }
  }
}

fn app_view(msgs, pending, auto) {
  let rows = [];
  for i, m in msgs {
    push(rows, [:li, m.role .. ": " .. m.text]);
  }
  let mode = "off";
  if auto { mode = "on"; }
  let asked = [];
  if pending != nil {
    push(asked, [:p, "run `" .. pending .. "`"]);
  }
  return [:div, [:p, "auto-approve: " .. mode], [:ul, rows], asked];
}

fn paint() {
  let msgs = store(["msgs", store.all]);
  let pending = store(["pending"]);
  let auto = store(["auto"]);
  cast browsers { hui.render("#app", app_view(msgs, pending, auto)); }
}

fn ask(content) {
  let stream = llm.stream({ messages = [{ role = "user", content = content }] });
  let text = "";
  let going = true;
  while going {
    let r = llm.next(stream);
    if r.done {
      going = false;
      text = r.text;
    } else {
      text = text .. r.delta;
      cast browsers { dom.set("#stream", "assistant: " .. text); }
    }
  }
  return text;
}

fn run_tool(cmd) {
  let r = bash(cmd);
  store.append({ type = "tool", text = r.stdout });
  return r.stdout;
}

fn run_turn(content) {
  let next = content;
  while next != nil {
    let reply = ask(next);
    let call = json.first(reply);
    next = nil;
    if call == nil {
      store.append({ type = "assistant", text = reply });
    } else {
      store.append({ type = "request", cmd = call.cmd });
      if store(["auto"]) == true {
        next = run_tool(call.cmd);
      }
    }
  }
  paint();
}

fn on_connect(sid) { paint(); }

fn send() {
  let text = dom.get("#draft");
  dom.clear("#draft");
  server!();
  store.append({ type = "user", text = text });
  run_turn(text);
}

fn approve() {
  server!();
  run_turn(run_tool(store(["pending"])));
}

fn deny() {
  server!();
  store.append({ type = "tool", text = "user declined" });
  paint();
}

fn toggle_auto() {
  server!();
  store.append({ type = "auto" });
  paint();
}
"##;

#[test]
fn agent_chat_tool_loop_and_replay() {
    let mut host = Host::new(&["A"], AGENT);
    host.cluster.fire_args("server", "on_connect", &vec![s("A")]).unwrap();
    host.pump();

    // a plain question: the simulated model streams "echo: hello agent" in
    // chunks
    host.cluster.set_dom("A", "#draft", "hello agent");
    host.fire("A", "send");
    host.pump();
    assert!(host.cluster.quiescent().is_ok());

    let m0 = host.store_get(vec![s("msgs"), i(0)]).unwrap();
    assert_eq!(text(&field(&m0, "role")), "user");
    assert_eq!(text(&field(&m0, "text")), "hello agent");
    let m1 = host.store_get(vec![s("msgs"), i(1)]).unwrap();
    assert_eq!(text(&field(&m1, "role")), "assistant");
    assert_eq!(text(&field(&m1, "text")), "echo: hello agent");

    // streaming painted partials into #stream before the turn committed
    let streamed = host.cluster.dom("A", "#stream");
    assert!(streamed.starts_with("assistant: "), "{}", streamed);

    // a tool turn: the model answers with a bash tool call, which waits for
    // approval
    host.cluster.set_dom("A", "#draft", "RUN: echo hop_tool_ok");
    host.fire("A", "send");
    host.pump();
    assert!(host.cluster.quiescent().is_ok());
    let pending = host.store_get(vec![s("pending")]).unwrap();
    assert!(same(&pending, &s("echo hop_tool_ok")));
    assert!(host.cluster.dom("A", "#app").contains("run `echo hop_tool_ok`"));

    // approve: bash runs, its result goes on the tape, the turn resumes
    host.fire("A", "approve");
    host.pump();
    assert!(host.cluster.quiescent().is_ok());
    let pending = host.store_get(vec![s("pending")]).unwrap();
    assert!(same(&pending, &Data::Null));
    // msgs: 0 user, 1 assistant, 2 user, 3 tool_request, 4 tool, 5 assistant
    let m4 = host.store_get(vec![s("msgs"), i(4)]).unwrap();
    assert_eq!(text(&field(&m4, "role")), "tool");
    assert!(text(&field(&m4, "text")).contains("hop_tool_ok"));
    // and the model saw the output (it echoes it back)
    let m5 = host.store_get(vec![s("msgs"), i(5)]).unwrap();
    assert_eq!(text(&field(&m5, "role")), "assistant");
    assert!(host.cluster.dom("A", "#app").contains("hop_tool_ok"));

    // deny: wait for approval again, refuse it; a command that ran would
    // not be an `echo`
    host.cluster.set_dom("A", "#draft", "RUN: touch /tmp/hop_denied_marker");
    host.fire("A", "send");
    host.pump();
    host.fire("A", "deny");
    host.pump();
    assert!(host.cluster.quiescent().is_ok());
    let pending = host.store_get(vec![s("pending")]).unwrap();
    assert!(same(&pending, &Data::Null));
    assert!(host.cluster.dom("A", "#app").contains("user declined"));

    // the tape is the session: incremental execution equals replay from zero
    host.verify();
}

#[test]
fn agent_auto_approve_runs_tools_without_the_gate() {
    let mut host = Host::new(&["A"], AGENT);
    host.fire("A", "toggle_auto");
    host.pump();
    assert!(same(&host.store_get(vec![s("auto")]).unwrap(), &Data::Bool(true)));
    assert!(host.cluster.dom("A", "#app").contains("auto-approve: on"));

    host.cluster.set_dom("A", "#draft", "RUN: echo auto_ok");
    host.fire("A", "send");
    host.pump();
    assert!(host.cluster.quiescent().is_ok());

    // nothing waits: the whole turn ran, request, result, model follow-up
    assert!(same(&host.store_get(vec![s("pending")]).unwrap(), &Data::Null));
    // msgs: 0 user, 1 tool_request, 2 tool, 3 assistant
    let m2 = host.store_get(vec![s("msgs"), i(2)]).unwrap();
    assert_eq!(text(&field(&m2, "role")), "tool");
    assert!(text(&field(&m2, "text")).contains("auto_ok"));
    let m3 = host.store_get(vec![s("msgs"), i(3)]).unwrap();
    assert_eq!(text(&field(&m3, "role")), "assistant");

    // toggling back asks again
    host.fire("A", "toggle_auto");
    host.pump();
    assert!(same(&host.store_get(vec![s("auto")]).unwrap(), &Data::Bool(false)));
    host.verify();
}

const TOURNAMENT: &str = r##"
server let schema = store.record([
  ["tournaments", store.map(store.record([
    ["name", store.leaf],
    ["format", store.leaf],
    ["status", store.leaf],
    ["rounds", store.leaf],
    ["champion", store.leaf],
    ["players", store.leaf],
    ["third", store.leaf],
    ["out", store.leaf],
    ["matches", store.map(store.record([
      ["round", store.leaf],
      ["p1", store.leaf],
      ["p2", store.leaf],
      ["winner", store.leaf],
      ["s1", store.leaf],
      ["s2", store.leaf],
      ["ff", store.leaf],
      ["wt", store.leaf],
      ["ws", store.leaf],
      ["lt", store.leaf],
      ["ls", store.leaf]
    ]))]
  ]))]
]);

fn half(n) { return floor(n / 2); }

fn side(j) {
  if j % 2 == 1 { return "p1"; }
  return "p2";
}

fn seeds(size) {
  let order = [1];
  while len(order) < size {
    let next = [];
    for i, x in order {
      push(next, x);
      push(next, len(order) * 2 + 1 - x);
    }
    order = next;
  }
  return order;
}

fn bracket_size(n) {
  let size = 1;
  while size < n { size = size * 2; }
  return size;
}

fn seat(t, prefix) {
  let order = seeds(bracket_size(len(t.players)));
  let j = 1;
  while j <= half(len(order)) {
    let m = t.matches[prefix .. j];
    m.p1 = t.players[order[j * 2 - 2] - 1];
    m.p2 = t.players[order[j * 2 - 1] - 1];
    j = j + 1;
  }
  j = 1;
  while j <= half(len(order)) {
    let m = t.matches[prefix .. j];
    if m.p2 == nil { decide(t, prefix .. j, m.p1); }
    j = j + 1;
  }
}

fn start_single(t) {
  let count = half(bracket_size(len(t.players)));
  let k = 1;
  while count >= 1 {
    let j = 1;
    while j <= count {
      let m = { round = k };
      if count > 1 {
        m.wt = "r" .. (k + 1) .. "m" .. half(j + 1);
        m.ws = side(j);
      }
      t.matches["r" .. k .. "m" .. j] = m;
      j = j + 1;
    }
    t.rounds = k;
    k = k + 1;
    count = half(count);
  }
  if t.third == true && t.rounds > 1 {
    t.matches["3p"] = { round = t.rounds };
    let j = 1;
    while j <= 2 {
      let semi = t.matches["r" .. (t.rounds - 1) .. "m" .. j];
      semi.lt = "3p";
      semi.ls = side(j);
      j = j + 1;
    }
  }
  seat(t, "r1m");
}

fn start_double(t) {
  t.matches = {
    w1m1 = { round = 1, wt = "w2m1", ws = "p1", lt = "l1m1", ls = "p1" },
    w1m2 = { round = 1, wt = "w2m1", ws = "p2", lt = "l1m1", ls = "p2" },
    w2m1 = { round = 2, wt = "gf1", ws = "p1", lt = "l2m1", ls = "p2" },
    l1m1 = { round = 1, wt = "l2m1", ws = "p1" },
    l2m1 = { round = 2, wt = "gf1", ws = "p2" },
    gf1 = { round = 3 }
  };
  seat(t, "w1m");
}

fn start_robin(t) {
  let ring = [];
  for i, p in t.players { push(ring, p); }
  if len(ring) % 2 == 1 { push(ring, "__bye"); }
  let n = len(ring);
  let k = 1;
  while k < n {
    let i = 0;
    let j = 1;
    while i < half(n) {
      let a = ring[i];
      let b = ring[n - 1 - i];
      if a != "__bye" && b != "__bye" {
        t.matches["r" .. k .. "m" .. j] = { round = k, p1 = a, p2 = b };
        j = j + 1;
      }
      i = i + 1;
    }
    let turned = [ring[0], ring[n - 1]];
    i = 1;
    while i < n - 1 {
      push(turned, ring[i]);
      i = i + 1;
    }
    ring = turned;
    k = k + 1;
  }
}

fn crown(t, w) {
  t.champion = w;
  t.status = "done";
}

fn settle(t) {
  let wins = {};
  for mid, m in t.matches {
    if m.winner == nil { return nil; }
    if wins[m.winner] == nil { wins[m.winner] = 0; }
    wins[m.winner] = wins[m.winner] + 1;
  }
  let best = 0;
  let who = nil;
  for p, n in wins {
    if n > best {
      best = n;
      who = p;
    } else {
      if n == best { who = nil; }
    }
  }
  crown(t, who);
}

fn put(t, mid, slot, p) {
  let m = t.matches[mid];
  m[slot] = p;
}

fn decide(t, mid, w) {
  let m = t.matches[mid];
  m.winner = w;
  if t.format == "robin" {
    settle(t);
    return nil;
  }
  let loser = m.p1;
  if w == m.p1 { loser = m.p2; }
  if m.wt != nil {
    put(t, m.wt, m.ws, w);
    if m.lt != nil { put(t, m.lt, m.ls, loser); }
    return nil;
  }
  if mid == "3p" { return nil; }
  if mid == "gf1" && w == m.p2 && m.ff != true {
    t.matches["gf2"] = { round = 4, p1 = m.p1, p2 = m.p2 };
    return nil;
  }
  crown(t, w);
}

fn sweep(t) {
  let again = true;
  while again {
    again = false;
    for mid, m in t.matches {
      if again == false && m.winner == nil && m.p1 != nil && m.p2 != nil {
        let w = nil;
        if t.out[m.p1] == true { w = m.p2; }
        if t.out[m.p2] == true { w = m.p1; }
        if w != nil {
          m.ff = true;
          decide(t, mid, w);
          again = true;
        }
      }
    }
  }
}

fn renamed(p, old, name) {
  if p == old { return name; }
  return p;
}

fn pull(t, mid, slot) {
  reopen(t, mid);
  put(t, mid, slot, nil);
}

fn reopen(t, mid) {
  let m = t.matches[mid];
  if m.winner == nil || m.ff == true { return nil; }
  if m.wt != nil { pull(t, m.wt, m.ws); }
  if m.lt != nil { pull(t, m.lt, m.ls); }
  m.winner = nil;
  m.s1 = nil;
  m.s2 = nil;
  t.champion = nil;
  t.status = "live";
}

fn sign_up(t, event) {
  match event {
    enter { player } => {
      for i, p in t.players {
        if p == player { return nil; }
      }
      push(t.players, player);
    }
    move { i } => {
      let up = t.players[i];
      t.players[i] = t.players[i - 1];
      t.players[i - 1] = up;
    }
    drop { i } => {
      let rest = [];
      for j, p in t.players {
        if j != i { push(rest, p); }
      }
      t.players = rest;
    }
    config { k, v } => { t[k] = v; }
    start => {
      t.status = "live";
      t.matches = {};
      t.out = {};
      if t.format == "single" { start_single(t); }
      if t.format == "double" { start_double(t); }
      if t.format == "robin" { start_robin(t); }
    }
  }
}

fn play(t, event) {
  match event {
    report { mid, winner } => {
      let m = t.matches[mid];
      if m.winner != nil { return nil; }
      if winner != m.p1 && winner != m.p2 { return nil; }
      m.s1 = event.s1;
      m.s2 = event.s2;
      decide(t, mid, winner);
      sweep(t);
    }
    unreport { mid } => { reopen(t, mid); }
    forfeit { name } => {
      t.out[name] = true;
      sweep(t);
    }
    rename { i, name } => {
      let old = t.players[i];
      for j, p in t.players {
        if p == name { return nil; }
      }
      t.players[i] = name;
      for mid, m in t.matches {
        m.p1 = renamed(m.p1, old, name);
        m.p2 = renamed(m.p2, old, name);
        m.winner = renamed(m.winner, old, name);
      }
      t.champion = renamed(t.champion, old, name);
    }
  }
}

fn reduce(event) {
  match event {
    create { name, format } => {
      if format == nil { format = "single"; }
      store(["tournaments", event.seq, store.set({
        name = name, format = format, status = "signup", players = []
      })]);
    }
    delete { tid } => { store(["tournaments", tid, store.del]); }
    else => {
      let tid = event.tid;
      let t = store(["tournaments", tid]);
      if t.status == "signup" {
        sign_up(t, event);
      } else {
        play(t, event);
      }
      for i, name in ["status", "rounds", "champion", "players", "third", "out"] {
        store(["tournaments", tid, name, store.set(t[name])]);
      }
      for mid, m in t.matches {
        store(["tournaments", tid, "matches", mid, store.set(m)]);
      }
    }
  }
}

fn snapshot(tid) {
  let list = [];
  for i, id in store(["tournaments", store.keys]) {
    push(list, { id = id, name = store(["tournaments", id, "name"]) });
  }
  let snap = { list = list };
  if tid != nil { snap.champion = store(["tournaments", tid, "champion"]); }
  return snap;
}

fn roster(tid) {
  let rows = [];
  for i, p in store(["tournaments", tid, "players"]) { push(rows, { name = p }); }
  return rows;
}

fn load_match(tid, mid) {
  let m = {};
  for i, f in ["p1", "p2", "winner"] {
    m[f] = store(["tournaments", tid, "matches", mid, f]);
  }
  return m;
}

fn load_t(tid) {
  let last = "r" .. store(["tournaments", tid, "rounds"]) .. "m1";
  return { final = load_match(tid, last), bronze = load_match(tid, "3p") };
}

fn placed(rows, m) {
  let loser = m.p1;
  if m.winner == m.p1 { loser = m.p2; }
  push(rows, { name = m.winner, place = len(rows) + 1 });
  push(rows, { name = loser, place = len(rows) + 1 });
}

fn placements(t) {
  let rows = [];
  placed(rows, t.final);
  placed(rows, t.bronze);
  return rows;
}

fn render(snap) {
  print("champion: " .. tostring(snap.champion));
}
"##;

fn report(host: &mut Host, mid: &str, winner: &str) {
    host.append(&map(&[
        ("type", s("report")),
        ("tid", i(0)),
        ("mid", s(mid)),
        ("winner", s(winner)),
    ]))
    .unwrap();
}

fn ev(host: &mut Host, kind: &str, extra: &[(&str, Data)]) {
    let copy = durable::data::copy_data;
    let mut fields = vec![("type", s(kind)), ("tid", i(0))];
    fields.extend(extra.iter().map(|(k, v)| (*k, copy(v))));
    host.append(&map(&fields)).unwrap();
}

fn tget(host: &mut Host, rest: Vec<Data>) -> Data {
    let mut path = vec![s("tournaments"), i(0)];
    path.extend(rest);
    host.store_get(path).unwrap()
}

fn mget(host: &mut Host, mid: &str, name: &str) -> Data {
    tget(host, vec![s("matches"), s(mid), s(name)])
}

fn entered(format: Option<&str>, name: &str, players: &[&str]) -> Host {
    let mut host = Host::new(&["A", "B"], TOURNAMENT);
    let mut fields = vec![("type", s("create")), ("name", s(name))];
    if let Some(f) = format {
        fields.push(("format", s(f)));
    }
    host.append(&map(&fields)).unwrap();
    for p in players {
        ev(&mut host, "enter", &[("player", s(p))]);
    }
    host
}

#[test]
fn tournament_single_elim_seeding_scores_and_reopen() {
    // create without a format: defaults to single elimination
    let mut host = entered(None, "spring cup", &["a", "b", "c", "d", "e"]);
    // duplicate names are rejected; seeding is editable: promote e, drop d
    ev(&mut host, "enter", &[("player", s("a"))]);
    assert_eq!(arr_len(&tget(&mut host, vec![s("players")])), 5, "duplicate rejected");
    ev(&mut host, "move", &[("i", i(4))]);
    let players = tget(&mut host, vec![s("players")]);
    match &players {
        Data::Array(ps) => assert!(same(&ps[3], &s("e"))),
        other => panic!("expected array, got {:?}", other),
    }
    assert_eq!(arr_len(&players), 5);
    ev(&mut host, "drop", &[("i", i(4))]);
    assert_eq!(arr_len(&tget(&mut host, vec![s("players")])), 4, "d dropped");
    ev(&mut host, "enter", &[("player", s("d"))]);

    // seeds now a b c e d. size 8, rounds 3; order 1 8 4 5 2 7 3 6 puts
    // byes on seeds 1, 2, 3 (a, b, c); r1m2 is e (seed 4) vs d (seed 5)
    ev(&mut host, "start", &[]);
    assert!(same(&tget(&mut host, vec![s("status")]), &s("live")));
    assert!(same(&tget(&mut host, vec![s("rounds")]), &i(3)));
    assert!(same(&mget(&mut host, "r1m1", "winner"), &s("a")));
    assert!(same(&mget(&mut host, "r1m2", "p1"), &s("e")));
    assert!(same(&mget(&mut host, "r1m2", "p2"), &s("d")));
    assert!(same(&mget(&mut host, "r2m2", "p1"), &s("b")));
    assert!(same(&mget(&mut host, "r2m2", "p2"), &s("c")));

    // guards: late entry, foreign winner, double report change nothing
    ev(&mut host, "enter", &[("player", s("late"))]);
    assert_eq!(arr_len(&tget(&mut host, vec![s("players")])), 5, "signup locked");
    report(&mut host, "r1m2", "nobody");
    assert!(same(&mget(&mut host, "r1m2", "winner"), &Data::Null));

    // a report can carry scores
    let scored = [("mid", s("r1m2")), ("winner", s("d")), ("s1", i(1)), ("s2", i(2))];
    ev(&mut host, "report", &scored);
    assert!(same(&mget(&mut host, "r1m2", "s2"), &i(2)));
    report(&mut host, "r1m2", "e");
    assert!(same(&mget(&mut host, "r1m2", "winner"), &s("d")));

    report(&mut host, "r2m1", "a");
    report(&mut host, "r2m2", "c");
    report(&mut host, "r3m1", "c");
    assert!(same(&tget(&mut host, vec![s("champion")]), &s("c")));
    assert!(same(&tget(&mut host, vec![s("status")]), &s("done")));

    // reopen the semifinal c won: the cascade pulls c back out of the
    // final and uncrowns them; the final's other side is untouched
    ev(&mut host, "unreport", &[("mid", s("r2m2"))]);
    assert!(same(&tget(&mut host, vec![s("champion")]), &Data::Null));
    assert!(same(&tget(&mut host, vec![s("status")]), &s("live")));
    assert!(same(&mget(&mut host, "r3m1", "winner"), &Data::Null));
    assert!(same(&mget(&mut host, "r3m1", "p2"), &Data::Null));
    assert!(same(&mget(&mut host, "r3m1", "p1"), &s("a")));

    // history went the other way
    report(&mut host, "r2m2", "b");
    report(&mut host, "r3m1", "b");
    assert!(same(&tget(&mut host, vec![s("champion")]), &s("b")));

    // the lobby snapshot goes through store(["tournaments", store.keys])
    let snap = host.call_server("snapshot", vec![Data::Null]).unwrap();
    assert_eq!(arr_len(&field(&snap, "list")), 1);
    let snap = host.call_server("snapshot", vec![i(0)]).unwrap();
    host.call_server("render", vec![snap]).unwrap();
    let log = host.log();
    assert!(log.contains("champion: b"), "{}", log);

    host.verify();
}

#[test]
fn tournament_double_elim_losers_bracket_and_reset() {
    let mut host = entered(Some("double"), "de", &["a", "b", "c", "d"]);
    ev(&mut host, "start", &[]);

    // w1m1 = a vs d, w1m2 = b vs c (order 1 4 2 3). losers drop.
    report(&mut host, "w1m1", "a");
    report(&mut host, "w1m2", "b");
    assert!(same(&mget(&mut host, "l1m1", "p1"), &s("d")));
    assert!(same(&mget(&mut host, "l1m1", "p2"), &s("c")));

    report(&mut host, "w2m1", "a"); // b drops to the losers' final
    assert!(same(&mget(&mut host, "l2m1", "p2"), &s("b")));
    report(&mut host, "l1m1", "d");
    assert!(same(&mget(&mut host, "l2m1", "p1"), &s("d")));
    report(&mut host, "l2m1", "b");

    // grand final: a (undefeated) vs b (through the losers bracket).
    // b winning forces the bracket reset; the reset decides everything.
    assert!(same(&mget(&mut host, "gf1", "p1"), &s("a")));
    assert!(same(&mget(&mut host, "gf1", "p2"), &s("b")));
    report(&mut host, "gf1", "b");
    assert!(same(&tget(&mut host, vec![s("champion")]), &Data::Null));
    assert!(same(&mget(&mut host, "gf2", "p1"), &s("a")));
    report(&mut host, "gf2", "b");
    assert!(same(&tget(&mut host, vec![s("champion")]), &s("b")));

    // reopen the reset: uncrowned, replayable the other way
    ev(&mut host, "unreport", &[("mid", s("gf2"))]);
    assert!(same(&tget(&mut host, vec![s("status")]), &s("live")));
    report(&mut host, "gf2", "a");
    assert!(same(&tget(&mut host, vec![s("champion")]), &s("a")));

    host.verify();
}

#[test]
fn tournament_round_robin_standings_decide() {
    let mut host = entered(Some("robin"), "rr", &["a", "b", "c"]);
    ev(&mut host, "start", &[]);

    // circle method, 3 players padded with a bye: r1 = b vs c,
    // r2 = a vs c, r3 = a vs b: everyone plays everyone once
    assert!(same(&mget(&mut host, "r1m1", "p1"), &s("b")));
    assert!(same(&mget(&mut host, "r2m1", "p1"), &s("a")));
    assert!(same(&mget(&mut host, "r3m1", "p2"), &s("b")));

    report(&mut host, "r1m1", "b");
    report(&mut host, "r2m1", "a");
    assert!(same(&tget(&mut host, vec![s("status")]), &s("live")));
    report(&mut host, "r3m1", "a");
    assert!(same(&tget(&mut host, vec![s("champion")]), &s("a")));
    assert!(same(&tget(&mut host, vec![s("status")]), &s("done")));

    // flip a result into a three-way tie: done, but nobody is crowned
    ev(&mut host, "unreport", &[("mid", s("r2m1"))]);
    assert!(same(&tget(&mut host, vec![s("status")]), &s("live")));
    assert!(same(&tget(&mut host, vec![s("champion")]), &Data::Null));
    report(&mut host, "r2m1", "c");
    assert!(same(&tget(&mut host, vec![s("status")]), &s("done")));
    assert!(same(&tget(&mut host, vec![s("champion")]), &Data::Null));

    // deleting a tournament removes it from the lobby select
    ev(&mut host, "delete", &[]);
    let snap = host.call_server("snapshot", vec![Data::Null]).unwrap();
    assert_eq!(arr_len(&field(&snap, "list")), 0);

    host.verify();
}

fn roster_names(host: &mut Host) -> Vec<String> {
    match host.call_server("roster", vec![i(0)]).unwrap() {
        Data::Array(rows) => rows.iter().map(|r| text(&field(r, "name"))).collect(),
        other => panic!("roster returns an array, got {:?}", other),
    }
}

#[test]
fn forfeit_decides_open_matches_and_future_arrivals() {
    // single elim, 4 players: r1m1 = a vs d, r1m2 = b vs c
    let mut host = entered(Some("single"), "t", &["a", "b", "c", "d"]);
    ev(&mut host, "start", &[]);
    report(&mut host, "r1m1", "a");

    // a won a semifinal, then forfeits while waiting in the final. When
    // b arrives there, the match decides itself against the dropped player.
    ev(&mut host, "forfeit", &[("name", s("a"))]);
    report(&mut host, "r1m2", "b");
    assert!(same(&mget(&mut host, "r2m1", "winner"), &s("b")));
    assert!(same(&mget(&mut host, "r2m1", "ff"), &Data::Bool(true)));
    assert!(same(&tget(&mut host, vec![s("champion")]), &s("b")));

    // forfeit results are structural: no reopen
    ev(&mut host, "unreport", &[("mid", s("r2m1"))]);
    assert!(same(&mget(&mut host, "r2m1", "winner"), &s("b")));

    host.verify();
}

#[test]
fn forfeit_cascades_through_the_losers_bracket() {
    // double elim, 4 players: w1m1 = a vs d, w1m2 = b vs c
    let mut host = entered(Some("double"), "t", &["a", "b", "c", "d"]);
    ev(&mut host, "start", &[]);
    report(&mut host, "w1m1", "a");
    report(&mut host, "w1m2", "b");

    // d and c meet in l1m1; d forfeits, so c advances
    ev(&mut host, "forfeit", &[("name", s("d"))]);
    assert!(same(&mget(&mut host, "l1m1", "winner"), &s("c")));
    assert!(same(&mget(&mut host, "l1m1", "ff"), &Data::Bool(true)));
    assert!(same(&mget(&mut host, "l2m1", "p1"), &s("c")));

    report(&mut host, "w2m1", "b"); // a drops to the losers' final against c
    report(&mut host, "l2m1", "a");
    report(&mut host, "gf1", "b");
    assert!(same(&tget(&mut host, vec![s("champion")]), &s("b")));

    host.verify();
}

#[test]
fn forfeit_in_the_grand_final_crowns_without_a_reset() {
    let mut host = entered(Some("double"), "t", &["a", "b", "c", "d"]);
    ev(&mut host, "start", &[]);
    report(&mut host, "w1m1", "a");
    report(&mut host, "w1m2", "b");
    report(&mut host, "w2m1", "a");
    report(&mut host, "l1m1", "d");
    report(&mut host, "l2m1", "b");
    // gf1 = a (undefeated) vs b. a forfeits: no bracket reset against a
    // forfeit, b takes the title directly.
    ev(&mut host, "forfeit", &[("name", s("a"))]);
    assert!(same(&mget(&mut host, "gf1", "winner"), &s("b")));
    assert!(same(&mget(&mut host, "gf2", "round"), &Data::Null));
    assert!(same(&tget(&mut host, vec![s("champion")]), &s("b")));

    host.verify();
}

#[test]
fn rename_chases_the_old_name_through_a_live_bracket() {
    let mut host = entered(Some("single"), "t", &["a", "b", "c", "d"]);
    ev(&mut host, "start", &[]);
    report(&mut host, "r1m1", "a");
    report(&mut host, "r1m2", "b");
    report(&mut host, "r2m1", "a");
    assert!(same(&tget(&mut host, vec![s("champion")]), &s("a")));

    // a is now alice: seat, match slots, winners, and the crown all follow
    ev(&mut host, "rename", &[("i", i(0)), ("name", s("alice"))]);
    assert_eq!(roster_names(&mut host)[0], "alice");
    assert!(same(&mget(&mut host, "r1m1", "p1"), &s("alice")));
    assert!(same(&mget(&mut host, "r1m1", "winner"), &s("alice")));
    assert!(same(&mget(&mut host, "r2m1", "winner"), &s("alice")));
    assert!(same(&tget(&mut host, vec![s("champion")]), &s("alice")));

    // a taken name is rejected
    ev(&mut host, "rename", &[("i", i(1)), ("name", s("alice"))]);
    assert_eq!(roster_names(&mut host)[1], "b");

    host.verify();
}

#[test]
fn third_place_match_settles_bronze_and_placements() {
    let mut host = entered(Some("single"), "t", &["a", "b", "c", "d"]);
    ev(&mut host, "config", &[("k", s("third")), ("v", Data::Bool(true))]);
    ev(&mut host, "start", &[]);

    // semifinal losers drop into "3p"
    report(&mut host, "r1m1", "a"); // d out
    report(&mut host, "r1m2", "b"); // c out
    assert!(same(&mget(&mut host, "3p", "p1"), &s("d")));
    assert!(same(&mget(&mut host, "3p", "p2"), &s("c")));

    report(&mut host, "r2m1", "a");
    assert!(same(&tget(&mut host, vec![s("champion")]), &s("a")));
    // the bronze match can still be played after the crown
    report(&mut host, "3p", "d");
    assert!(same(&mget(&mut host, "3p", "winner"), &s("d")));

    let t = host.call_server("load_t", vec![i(0)]).unwrap();
    let rows = match host.call_server("placements", vec![t]).unwrap() {
        Data::Array(rows) => rows,
        other => panic!("placements is an array, got {:?}", other),
    };
    let want = [("a", 1), ("b", 2), ("d", 3), ("c", 4)];
    assert_eq!(rows.len(), want.len());
    for (row, (name, place)) in rows.iter().zip(want) {
        assert_eq!(text(&field(row, "name")), name);
        assert!(same(&field(row, "place"), &i(place)));
    }

    host.verify();
}

#[test]
fn a_reducer_reads_single_places_of_the_committed_state() {
    let src = r##"
        server let schema = store.record([
          ["notes", store.map(store.leaf)],
          ["seen", store.leaf],
          ["all", store.leaf]
        ]);
        fn reduce(event) {
          match event {
            note { text } => {
              store(["notes", event.seq, store.set(text)]);
              store(["seen", store.set(store(["notes"]))]);
            }
            gather => { store(["all", store.set(store(["notes", store.all]))]); }
          }
        }
    "##;
    let mut host = Host::new(&["A"], src);
    host.append(&map(&[("type", s("note")), ("text", s("one"))])).unwrap();
    host.append(&map(&[("type", s("note")), ("text", s("two"))])).unwrap();
    // what an event writes it does not see itself
    let seen = host.store_get(vec![s("seen")]).unwrap();
    match &seen {
        Data::Dict(m) => {
            assert_eq!(m.len(), 1, "{:?}", m);
            assert!(same(&m[0].0, &i(0)) && same(&m[0].1, &s("one")), "{:?}", m);
        }
        other => panic!("expected a map, got {:?}", other),
    }
    let e = host.append(&map(&[("type", s("gather"))])).unwrap_err();
    assert!(e.contains("peek requires a point path"), "{}", e);
}

#[test]
fn a_reducer_can_rank() {
    let src = r##"
        server let schema = store.record([
          ["order", store.leaf],
          ["kept", store.leaf],
          ["none", store.leaf]
        ]);
        fn reduce(event) {
          match event {
            vote { ids, votes } => {
              store(["order", store.set(rank.score(ids, votes))]);
              store(["kept", store.set(rank.finalize(ids, ids, votes, 1))]);
            }
            blank => { store(["none", store.set(rank.score())]); }
            run => { bash("echo no"); }
          }
        }
    "##;
    let mut host = Host::new(&["A"], src);
    let vote = map(&[("a_id", s("x")), ("b_id", s("y")), ("score", i(50))]);
    host.append(&map(&[
        ("type", s("vote")),
        ("ids", Data::Array(vec![s("lone"), s("x"), s("y")])),
        ("votes", Data::Array(vec![vote])),
    ]))
    .unwrap();
    let order = match host.store_get(vec![s("order")]).unwrap() {
        Data::Array(rows) => rows.iter().map(|r| text(&field(r, "id"))).collect::<Vec<String>>(),
        other => panic!("expected array, got {:?}", other),
    };
    assert_eq!(order, vec!["x", "y", "lone"]);
    let kept = host.store_get(vec![s("kept")]).unwrap();
    assert!(same(&field(&kept, "kept"), &Data::Array(vec![s("x")])));
    assert!(same(&field(&kept, "released"), &Data::Array(vec![s("lone"), s("y")])));
    host.append(&map(&[("type", s("blank"))])).unwrap();
    assert_eq!(arr_len(&host.store_get(vec![s("none")]).unwrap()), 0);
    host.verify();

    // an effect is refused still
    let e = host.append(&map(&[("type", s("run"))])).unwrap_err();
    assert!(e.contains("bash is not available here"), "{}", e);
}
