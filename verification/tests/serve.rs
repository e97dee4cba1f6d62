use durable::browser::{BrowserVm, Note};
use durable::data::Data;
use durable::effects::Order;
use durable::float::FloatTable;
use durable::hub::{Hub, Sent};
use durable::rt::{Action, SideId, Tick, Vm};
use durable::serve::{
    admission, config_json, enter, file_type, hello, hop_user_cookie, mints_user, page, page_type,
    request_path, route, session_name, stamp, user_cookie, Admission, Page, Session,
};
use durable::value::{Heap, Try, Value};
use durable::wire::{decode_value, from_cbor};

fn text(t: &str) -> Data {
    Data::Text(t.to_string())
}

fn packet(fields: &[(&str, &str)]) -> Data {
    Data::Dict(fields.iter().map(|(k, v)| (text(k), text(v))).collect())
}

fn bytes(d: &Data) -> Vec<u8> {
    let mut heap = Heap::new();
    let v = from_cbor(&mut heap, d).unwrap();
    heap.encode(v).unwrap()
}

fn field(heap: &Heap, v: Value, k: &str) -> String {
    heap.as_str(heap.get_field(v, k)).unwrap_or("").to_string()
}

#[test]
fn paths_have_no_query() {
    assert_eq!(request_path("/app.hop?x=1"), "/app.hop");
    assert_eq!(request_path("/"), "/");
    assert_eq!(request_path("?"), "");
}

#[test]
fn sessions_are_letters_and_then_numbers() {
    assert_eq!(session_name(0), "A");
    assert_eq!(session_name(25), "Z");
    assert_eq!(session_name(26), "S26");
}

#[test]
fn the_user_is_in_the_cookie() {
    assert_eq!(hop_user_cookie("a=b; hop_user=u1; c=d"), Some("u1".to_string()));
    assert_eq!(hop_user_cookie("hop_user=; hop_user=u2"), Some("u2".to_string()));
    assert_eq!(hop_user_cookie("a=b"), None);
    assert!(mints_user(Page::Shell, None));
    assert!(mints_user(Page::Shell, Some("a=b")));
    assert!(!mints_user(Page::Shell, Some("hop_user=u1")));
    assert!(!mints_user(Page::Glue, None));
    assert_eq!(user_cookie("u1"), "hop_user=u1; Path=/; Max-Age=31536000; SameSite=Lax");
}

#[test]
fn the_door_asks_for_the_password() {
    let token = durable::auth::token(Some("secret"), None);
    assert_eq!(admission(&None, None, false, "/", ""), Admission::Pass);
    assert_eq!(admission(&token, None, false, "/", ""), Admission::Ask);
    assert_eq!(admission(&token, None, false, "/login", "password=secret"), Admission::Ask);
    assert_eq!(admission(&token, None, true, "/login", "password=nope"), Admission::Wrong);
    assert_eq!(admission(&token, None, true, "/login", ""), Admission::Wrong);
    assert_eq!(admission(&token, None, true, "/login", "password=secret"), Admission::Enter);
    let cookie = format!("{}={}", durable::auth::COOKIE, token.as_ref().unwrap());
    assert_eq!(admission(&token, Some(cookie.as_str()), false, "/", ""), Admission::Pass);
}

#[test]
fn pages_have_their_types() {
    assert_eq!(page("/"), Page::Shell);
    assert_eq!(page("/index.html"), Page::Shell);
    assert_eq!(page("/glue.js"), Page::Glue);
    assert_eq!(page("/idiomorph.esm.js"), Page::Idiomorph);
    assert_eq!(page("/config.json"), Page::Config);
    assert_eq!(page("/app.hop"), Page::App);
    assert_eq!(page("/reset"), Page::Reset);
    assert_eq!(page("/boot.css"), Page::Boot);
    assert_eq!(page("/pkg/hop_web.js"), Page::Pkg);
    assert_eq!(page_type(Page::Shell), Some("text/html; charset=utf-8"));
    assert_eq!(page_type(Page::Boot), Some("text/css"));
    assert_eq!(page_type(Page::Pkg), None);
    assert_eq!(file_type("hop_web_bg.wasm"), "application/wasm");
    assert_eq!(file_type("hop_web.js"), "text/javascript");
    assert_eq!(file_type("js"), "application/octet-stream");
    assert_eq!(config_json(8081, "/ws"), "{\"wsPort\":8081,\"wsPath\":\"/ws\"}");
}

#[test]
fn packets_go_to_those_they_are_for() {
    let mk = |sid: &str, user: &str| Session { sid: sid.to_string(), user: user.to_string() };
    let ss = vec![mk("A", "u1"), mk("B", "u2"), mk("C", "u1")];
    assert_eq!(route(&ss, "browsers"), vec![0, 1, 2]);
    assert_eq!(route(&ss, "user:u1"), vec![0, 2]);
    assert_eq!(route(&ss, "B"), vec![1]);
    assert_eq!(route(&ss, "Z"), Vec::<usize>::new());
    assert_eq!(route(&ss, "user:"), Vec::<usize>::new());
}

#[test]
fn a_claimed_identity_is_overwritten() {
    let mut heap = Heap::new();
    let d = packet(&[
        ("kind", "call"),
        ("origin", "B"),
        ("user", "root"),
        ("hop", "f:1"),
    ]);
    let v = from_cbor(&mut heap, &d).unwrap();
    stamp(&mut heap, v, "A", "u1");
    assert_eq!(field(&heap, v, "origin"), "A");
    assert_eq!(field(&heap, v, "reply_to"), "A");
    assert_eq!(field(&heap, v, "user"), "u1");
    assert_eq!(field(&heap, v, "hop"), "f:1");
    assert_eq!(field(&heap, v, "kind"), "call");
}

#[test]
fn a_reply_is_not_stamped() {
    let mut heap = Heap::new();
    let v = from_cbor(&mut heap, &packet(&[("kind", "reply"), ("flow", "A#1")])).unwrap();
    stamp(&mut heap, v, "A", "u1");
    assert_eq!(field(&heap, v, "origin"), "");
}

#[test]
fn of_two_kinds_the_last_is_stamped_and_served() {
    let mut heap = Heap::new();
    let d = packet(&[("kind", "reply"), ("origin", "B"), ("kind", "call")]);
    let v = from_cbor(&mut heap, &d).unwrap();
    stamp(&mut heap, v, "A", "u1");
    assert_eq!(field(&heap, v, "origin"), "A");
}

fn machine(src: &str, side: SideId) -> Vm {
    Vm::new(durable::compiler::compile(src, &FloatTable::new()).unwrap(), side)
}

fn run(vm: &mut Vm) {
    loop {
        match vm.step(&FloatTable::new()) {
            Tick::Idle => return,
            Tick::More => {}
            Tick::Want(_) => panic!("nothing is wanted"),
        }
    }
}

fn prints(vm: &mut Vm) -> Vec<String> {
    vm.take_actions()
        .into_iter()
        .filter_map(|a| match a {
            Action::Print(s) => Some(s),
            _ => None,
        })
        .collect()
}

#[test]
fn a_packet_that_came_in_runs_as_its_session() {
    let src = "fn f() { server!(); print(session() .. \"/\" .. user()); }";
    let mut vm = machine(src, SideId::Server);
    let d = packet(&[("kind", "cast"), ("hop", "f:1"), ("origin", "B"), ("flow", "A#1")]);
    enter(&mut vm, &bytes(&d), "A", "u7").unwrap();
    run(&mut vm);
    assert_eq!(prints(&mut vm), vec!["A/u7"]);
    assert!(enter(&mut vm, &[0xff], "A", "u7").is_err());
}

#[test]
fn the_hello_names_session_and_user() {
    let mut heap = Heap::new();
    let v = decode_value(&mut heap, &bytes(&hello("A", "u1"))).unwrap();
    assert_eq!(field(&heap, v, "kind"), "hello");
    assert_eq!(field(&heap, v, "session"), "A");
    assert_eq!(field(&heap, v, "user"), "u1");
}

#[test]
fn a_browser_is_born_by_the_hello() {
    let src = "fn f() { server!(); browser!(); print(\"drawn for \" .. session()); }
               fn go() { print(\"go\"); }";
    let mut b = BrowserVm::new(src, &FloatTable::new()).unwrap();
    b.fire("go");
    assert!(b.vm.is_none());
    let early = bytes(&packet(&[("kind", "cast"), ("hop", "f:2"), ("flow", "A#1")]));
    assert!(matches!(b.receive(&early), Note::Queued));
    assert!(matches!(b.receive(&[0xff]), Note::Undecodable(_)));
    assert!(!b.resume());
    assert!(matches!(b.receive(&bytes(&hello("A", "u1"))), Note::Born));
    assert!(b.resume());
    assert!(!b.resume());
    let vm = b.vm.as_mut().unwrap();
    run(vm);
    assert_eq!(prints(vm), vec!["drawn for A"]);
    assert!(matches!(b.receive(&early), Note::Taken));
    b.fire("go");
    let vm = b.vm.as_mut().unwrap();
    run(vm);
    assert_eq!(prints(vm).len(), 2);
}

#[test]
fn a_browser_without_a_program_is_none() {
    assert!(BrowserVm::new("fn (", &FloatTable::new()).is_err());
}

#[test]
fn handlers_run_with_the_key_of_the_event() {
    let src = "fn go() { hui.render(\"#app\", [:input, { onkeydown = fn(e) { print(\"key \" .. tostring(e.key)); } }]); }";
    let mut b = BrowserVm::new(src, &FloatTable::new()).unwrap();
    b.receive(&bytes(&hello("A", "u1")));
    b.fire("go");
    run(b.vm.as_mut().unwrap());
    b.fire_handler(1, Some("Enter"), false);
    run(b.vm.as_mut().unwrap());
    b.fire_handler(1, None, false);
    run(b.vm.as_mut().unwrap());
    b.fire_handler(7, None, true);
    run(b.vm.as_mut().unwrap());
    assert_eq!(prints(b.vm.as_mut().unwrap()), vec!["key Enter", "key nil"]);
}

#[test]
fn the_hub_knows_its_sessions() {
    let src = "fn on_connect(sid, user) { print(\"hi \" .. sid .. \" \" .. user); }
               fn on_disconnect(sid, user) { print(\"bye \" .. sid .. \" \" .. user); }
               fn f() { server!(); print(session() .. \"/\" .. user()); cast session(session()) { print(1); } }";
    let mut hub = Hub::new(machine(src, SideId::Server));
    hub.connect("A", "u1");
    run(&mut hub.vm);
    hub.connect("B", "u2");
    run(&mut hub.vm);
    assert_eq!(prints(&mut hub.vm), vec!["hi A u1", "hi B u2"]);
    let d = packet(&[("kind", "cast"), ("hop", "f:1"), ("origin", "A"), ("user", "u1")]);
    hub.packet("B", &bytes(&d)).unwrap();
    run(&mut hub.vm);
    let mut sent = Vec::new();
    for a in hub.vm.take_actions() {
        match a {
            Action::Print(s) => assert_eq!(s, "B/u2"),
            Action::Send(p) => match hub.dispatch(&FloatTable::new(), &p, None) {
                Try::Done(Sent::Frames { to, .. }) => sent.push(to),
                _ => panic!("expected frames"),
            },
            _ => {}
        }
    }
    assert_eq!(sent, vec![vec![1]]);
    assert!(hub.gone("A"));
    assert!(!hub.gone("A"));
    run(&mut hub.vm);
    assert_eq!(prints(&mut hub.vm), vec!["bye A u1"]);
    assert_eq!(hub.place("B"), 0);
    hub.reset();
    assert!(hub.vm.jobs.is_empty());
}

#[test]
fn effects_of_the_server_are_ordered() {
    let src = "fn go() { bash(\"ls\"); }";
    let mut hub = Hub::new(machine(src, SideId::Server));
    hub.vm.fire("go", Vec::new());
    run(&mut hub.vm);
    let mut orders = Vec::new();
    for a in hub.vm.take_actions() {
        if let Action::Send(p) = a {
            match hub.dispatch(&FloatTable::new(), &p, None) {
                Try::Done(Sent::Orders(os)) => orders.extend(os),
                _ => panic!("expected orders"),
            }
        }
    }
    assert_eq!(orders.len(), 1);
    let flow = match &orders[0] {
        Order::Bash { flow, cmd, .. } => {
            assert_eq!(cmd, "ls");
            flow.clone()
        }
        _ => panic!("expected a command"),
    };
    assert!(hub.vm.quiescent().is_err());
    hub.deliver(&durable::effects::effect_reply(&flow, Data::Null)).unwrap();
    run(&mut hub.vm);
    assert!(hub.vm.quiescent().is_ok());
}
