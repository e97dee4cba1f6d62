use durable::data::Data;
use durable::effects::{llm_body, Effects, LlmStream, Order};
use durable::float::FloatTable;
use durable::llm::{answer_value, read_completion, read_models, StreamReader};
use durable::query::{map_get, values_eq};
use durable::value::{Heap, Try, Value};
use durable::wire::from_cbor;

fn text(t: &str) -> Data {
    Data::Text(t.to_string())
}

fn field(d: &Data, k: &str) -> Data {
    map_get(d, &text(k))
}

fn same(a: &Data, b: &Data) -> bool {
    values_eq(a, b)
}

/// What a flow's wish for more of a stream gives.
fn next(fx: &mut Effects, flow: &str, h: &str) -> Option<Data> {
    let mut heap = Heap::new();
    let vars = from_cbor(&mut heap, &Data::Dict(vec![(text("h"), text(h))])).unwrap();
    match fx.handle(&heap, &FloatTable::new(), flow, "llm_next", vars, None) {
        Try::Done(mut os) => {
            if os.is_empty() {
                return None;
            }
            match os.remove(0) {
                Order::Deliver(d) => Some(d),
                _ => panic!("expected a packet"),
            }
        }
        _ => panic!("expected orders"),
    }
}

#[test]
fn last_delta_with_done_set_does_not_kill_the_stream() {
    let mut fx = Effects::new();
    fx.streams.push((
        "llm:1".to_string(),
        LlmStream {
            buf: vec!["tail".to_string()],
            done: Some(Ok(("full text".to_string(), Vec::new()))),
            pending: None,
        },
    ));
    let v = field(&next(&mut fx, "f#1", "llm:1").unwrap(), "value");
    assert!(same(&field(&v, "delta"), &text("tail")));
    assert!(fx.has_stream("llm:1"), "stream survives the last delta");

    let v = field(&next(&mut fx, "f#1", "llm:1").unwrap(), "value");
    assert!(same(&field(&v, "done"), &Data::Bool(true)));
    assert!(same(&field(&v, "text"), &text("full text")));
    assert!(!fx.has_stream("llm:1"), "stream removed after the final marker");
}

#[test]
fn sse_reader_assembles_tool_call_fragments() {
    let sse = [
        "data: {\"choices\":[{\"delta\":{\"content\":\"let me look\"}}]}",
        "",
        "data: {\"choices\":[{\"delta\":{\"tool_calls\":[{\"index\":0,\"id\":\"call_a\",\"type\":\"function\",\"function\":{\"name\":\"bash\",\"arguments\":\"{\\\"cm\"}}]}}]}",
        "",
        "data: {\"choices\":[{\"delta\":{\"tool_calls\":[{\"index\":0,\"function\":{\"arguments\":\"d\\\":\\\"ls\\\"}\"}}]}}]}",
        "",
        "data: {\"choices\":[{\"delta\":{\"tool_calls\":[{\"index\":1,\"id\":\"call_b\",\"function\":{\"name\":\"bash\",\"arguments\":\"{}\"}}]}}]}",
        "",
        "data: [DONE]",
        "",
    ];
    let mut reader = StreamReader::new();
    let mut deltas = Vec::new();
    for line in sse {
        if let Some(d) = reader.line(line).unwrap() {
            deltas.push(d);
        }
    }
    assert!(reader.over);
    assert_eq!(reader.text, "let me look");
    assert_eq!(deltas, vec!["let me look"]);
    let calls = &reader.calls;
    assert_eq!(calls.len(), 2);
    assert_eq!(calls[0].id, "call_a");
    assert_eq!(calls[0].name, "bash");
    assert_eq!(calls[0].args, r#"{"cmd":"ls"}"#);
    assert_eq!(calls[1].id, "call_b");
}

#[test]
fn a_stream_that_errs_is_an_error() {
    let mut reader = StreamReader::new();
    let e = reader.line("data: {\"error\":{\"message\":\"overloaded\"}}").unwrap_err();
    assert_eq!(e, "overloaded");
    let e = reader.line("data: {\"error\":7}").unwrap_err();
    assert_eq!(e, "llm stream error");
    assert_eq!(reader.line(": comment").unwrap(), None);
    assert_eq!(reader.line("data: not json").unwrap(), None);
}

#[test]
fn wake_on_chunk_keeps_the_stream_until_done_is_delivered() {
    let mut fx = Effects::new();
    fx.streams.push((
        "llm:1".to_string(),
        LlmStream { buf: Vec::new(), done: None, pending: Some("f#1".to_string()) },
    ));
    let d = fx.on_chunk("llm:1", "d1".to_string()).unwrap();
    assert!(same(&field(&field(&d, "value"), "delta"), &text("d1")));
    assert!(fx.has_stream("llm:1"));

    fx.streams[0].1.pending = Some("f#1".to_string());
    let d = fx.on_done("llm:1", Ok(("d1".to_string(), Vec::new()))).unwrap();
    let v = field(&d, "value");
    assert!(same(&field(&v, "done"), &Data::Bool(true)));
    assert!(!fx.has_stream("llm:1"), "final via wake removes the stream");
}

fn produce(fx: &mut Effects, produced: usize, n_deltas: usize) -> Option<Data> {
    if produced < n_deltas {
        fx.on_chunk("llm:1", format!("d{}", produced))
    } else {
        fx.on_done("llm:1", Ok(("all".to_string(), Vec::new())))
    }
}

#[test]
fn every_interleaving_delivers_all_deltas_then_one_final() {
    for n_deltas in 0usize..4 {
        let n_producer = n_deltas + 1;
        for sched in 0u32..(1 << (2 * n_producer + n_deltas + 2)) {
            let mut fx = Effects::new();
            fx.streams.push(("llm:1".to_string(), LlmStream::new()));
            let mut produced = 0;
            let mut want_next = true;
            let mut in_flight = false;
            let mut got: Vec<String> = Vec::new();
            let mut finished = false;
            let mut bit = 0;
            while !finished {
                let producer_turn = bit < 32 && (sched >> bit) & 1 == 1;
                bit += 1;
                let mut reply = None;
                if producer_turn && produced < n_producer {
                    reply = produce(&mut fx, produced, n_deltas);
                    produced += 1;
                } else if want_next && !in_flight {
                    reply = next(&mut fx, "f#1", "llm:1");
                    want_next = false;
                    in_flight = true;
                } else if produced < n_producer {
                    reply = produce(&mut fx, produced, n_deltas);
                    produced += 1;
                }
                if let Some(pkt) = reply {
                    assert!(
                        !same(&field(&pkt, "kind"), &text("error")),
                        "n={} sched={:b}: flow got an error",
                        n_deltas,
                        sched
                    );
                    in_flight = false;
                    let v = field(&pkt, "value");
                    if let Data::Text(d) = field(&v, "delta") {
                        got.push(d);
                        want_next = true;
                    } else {
                        assert!(same(&field(&v, "done"), &Data::Bool(true)));
                        finished = true;
                    }
                }
            }
            let want: Vec<String> = (0..n_deltas).map(|i| format!("d{}", i)).collect();
            assert_eq!(got, want, "n={} sched={:b}: deltas in order", n_deltas, sched);
            assert!(
                !fx.has_stream("llm:1"),
                "n={} sched={:b}: stream reaped after final",
                n_deltas,
                sched
            );
        }
    }
}

#[test]
fn unknown_streams_and_effects_are_errors() {
    let mut fx = Effects::new();
    let d = next(&mut fx, "f#1", "llm:9").unwrap();
    assert!(same(&field(&d, "err"), &text("unknown stream llm:9")));
    assert!(same(&field(&d, "kind"), &text("error")));
    let heap = Heap::new();
    match fx.handle(&heap, &FloatTable::new(), "f#1", "fly", Value::Nil, None) {
        Try::Done(os) => match &os[0] {
            Order::Deliver(d) => assert!(same(&field(d, "err"), &text("unknown effect fly"))),
            _ => panic!("expected a packet"),
        },
        _ => panic!("expected orders"),
    }
}

#[test]
fn commands_and_streams_are_ordered() {
    let mut fx = Effects::new();
    let mut heap = Heap::new();
    let vars = from_cbor(
        &mut heap,
        &Data::Dict(vec![(text("cmd"), text("ls")), (text("dir"), text("/tmp"))]),
    )
    .unwrap();
    match fx.handle(&heap, &FloatTable::new(), "f#1", "bash", vars, None) {
        Try::Done(os) => match &os[0] {
            Order::Bash { flow, cmd, dir } => {
                assert_eq!(flow, "f#1");
                assert_eq!(cmd, "ls");
                assert_eq!(dir, "/tmp");
            }
            _ => panic!("expected a command"),
        },
        _ => panic!("expected orders"),
    }
    let req = Data::Dict(vec![(
        text("req"),
        Data::Dict(vec![(text("model"), text("m")), (text("messages"), Data::Array(vec![]))]),
    )]);
    let vars = from_cbor(&mut heap, &req).unwrap();
    match fx.handle(&heap, &FloatTable::new(), "f#2", "llm_start", vars, None) {
        Try::Done(os) => {
            assert_eq!(os.len(), 2);
            match &os[0] {
                Order::Stream { handle, body } => {
                    assert_eq!(handle, "llm:1");
                    assert_eq!(
                        body.as_ref().unwrap(),
                        "{\"messages\":[],\"model\":\"m\",\"stream\":true}"
                    );
                }
                _ => panic!("expected a stream"),
            }
            match &os[1] {
                Order::Deliver(d) => assert!(same(&field(d, "value"), &text("llm:1"))),
                _ => panic!("expected a packet"),
            }
        }
        _ => panic!("expected orders"),
    }
    assert!(fx.has_stream("llm:1"));
}

#[test]
fn a_request_without_a_model_has_none() {
    let mut heap = Heap::new();
    let req = from_cbor(&mut heap, &Data::Dict(vec![(text("x"), Data::UInt(1))])).unwrap();
    assert_eq!(
        llm_body(&heap, req, None, false).unwrap_err(),
        "no model: pass req.model or set HOP_LLM_MODEL"
    );
    assert_eq!(
        llm_body(&heap, req, Some("m"), false).unwrap(),
        "{\"model\":\"m\",\"stream\":false,\"x\":1}"
    );
    assert_eq!(
        llm_body(&heap, Value::Int(3), Some("m"), false).unwrap_err(),
        "llm request must be a map"
    );
}

#[test]
fn completions_are_read_whole() {
    let said = read_completion(
        "{\"choices\":[{\"message\":{\"content\":\"hi\",\"tool_calls\":[{\"id\":\"c\",\"function\":{\"name\":\"bash\",\"arguments\":\"{}\"}}]}}]}",
    );
    match &said {
        Ok((t, calls)) => {
            assert_eq!(t, "hi");
            assert_eq!(calls[0].name, "bash");
        }
        Err(e) => panic!("{}", e),
    }
    let v = answer_value(&said);
    assert!(same(&field(&v, "ok"), &Data::Bool(true)));
    let said = read_completion("{\"choices\":[]}");
    assert_eq!(said.unwrap_err(), "no content in response: {\"choices\":[]}");
    assert!(read_completion("nope").is_err());
}

#[test]
fn models_are_listed() {
    let ids = read_models("{\"data\":[{\"id\":\"a\"},{\"id\":\"b\"},{\"x\":1}]}").unwrap();
    assert_eq!(ids, vec!["a", "b"]);
}
