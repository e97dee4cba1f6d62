use durable::copying::deep_copy;
use durable::data::Data;
use durable::float::FloatTable;
use durable::hui::{esc, hui_render, HuiState};
use durable::json::{cbor_to_json, json_to_cbor, read_json, write_json};
use durable::markdown::markdown_hiccup;
use durable::sim::{fake_chunks, fake_llm, packet_line, pad_left, pad_right};
use durable::value::{Heap, Try, Value};
use durable::wire::{decode_value, from_cbor};

fn text(t: &str) -> Data {
    Data::Text(t.to_string())
}

fn sample() -> Data {
    Data::Dict(vec![
        (Data::UInt(3), Data::Array(vec![Data::Bool(true), Data::Null])),
        (text("b"), Data::Tag(27, Box::new(Data::Array(vec![text("t"), Data::NInt(4)])))),
        (text("a"), Data::Float(1.5f64.to_bits())),
        (text("b2"), Data::Bytes(vec![1, 2, 3])),
    ])
}

#[test]
fn a_value_crosses_as_a_copy() {
    let mut here = Heap::new();
    let v = from_cbor(&mut here, &sample()).unwrap();
    let sent = here.to_cbor(v).unwrap();
    let bytes = here.encode(v).unwrap();
    let mut there = Heap::new();
    there.str("what was there");
    let w = decode_value(&mut there, &bytes).unwrap();
    let back = there.to_cbor(w).unwrap();
    assert_eq!(format!("{:?}", sent), format!("{:?}", back));
    assert_eq!(there.encode(w).unwrap(), bytes);
    assert_eq!(there.str_at(0), "what was there");
}

#[test]
fn what_is_no_value_is_refused() {
    let mut h = Heap::new();
    assert_eq!(
        from_cbor(&mut h, &Data::Float(f64::NAN.to_bits())).unwrap_err(),
        "NaN is not a value"
    );
    assert_eq!(
        from_cbor(&mut h, &Data::UInt(u64::MAX)).unwrap_err(),
        "integer out of i64 range"
    );
    let m = Data::Dict(vec![(Data::Array(vec![]), Data::Null)]);
    assert_eq!(from_cbor(&mut h, &m).unwrap_err(), "map key must be scalar, got array");
    assert!(decode_value(&mut h, &[]).is_err());
    let id = durable::value::NativeId::Print;
    assert_eq!(
        h.to_cbor(Value::Native(id)).unwrap_err(),
        "native is not data and cannot be encoded"
    );
}

#[test]
fn a_deep_copy_shares_nothing_that_changes() {
    let mut h = Heap::new();
    let v = from_cbor(&mut h, &sample()).unwrap();
    let before = h.cells.len();
    let w = deep_copy(&mut h, v).unwrap();
    assert_eq!(
        format!("{:?}", h.to_cbor(v).unwrap()),
        format!("{:?}", h.to_cbor(w).unwrap())
    );
    assert!(matches!(w, Value::Dict(i) if i >= before));
    let e = h.empty_map();
    assert_eq!(format!("{:?}", h.to_cbor(e).unwrap()), "Dict([])");
}

#[test]
fn a_value_that_holds_itself_has_no_copy() {
    let mut h = Heap::new();
    let a = h.array(vec![]);
    if let Value::Array(i) = a {
        h.cells[i] = durable::value::Cell::Array(vec![a]);
    }
    assert_eq!(deep_copy(&mut h, a).unwrap_err(), "value is nested too deeply");
    assert_eq!(h.to_cbor(a).unwrap_err(), "value is nested too deeply");
}

#[test]
fn json_crosses_into_data_and_back() {
    let s = "{\"a\":[1,-2,null,true,18446744073709551615],\"b\":{\"c\":\"x\\ny\"},\"d\":0.5}";
    let j = read_json(s).unwrap();
    let d = json_to_cbor(&j);
    assert_eq!(write_json(&cbor_to_json(&d)), s);
    assert!(read_json("{").is_err());
}

#[test]
fn text_on_a_page_is_inert() {
    assert_eq!(esc("<a href=\"x\">&</a>"), "&lt;a href=&quot;x&quot;&gt;&amp;&lt;/a&gt;");
}

fn html(d: &Data) -> String {
    let mut h = Heap::new();
    let v = from_cbor(&mut h, d).unwrap();
    let mut st = HuiState::new();
    match hui_render(&h, &FloatTable::new(), &mut st, "#app", v) {
        Try::Done(s) => s,
        _ => panic!("not rendered"),
    }
}

#[test]
fn nodes_are_rendered() {
    let node = Data::Array(vec![
        text("p"),
        Data::Dict(vec![(text("class"), text("x\"y"))]),
        text("a<b"),
        Data::Array(vec![text("b"), Data::UInt(3)]),
        Data::Null,
        Data::Array(vec![Data::Array(vec![text("i")]), Data::Array(vec![text("u")])]),
    ]);
    assert_eq!(
        html(&node),
        "<p class=\"x&quot;y\">a&lt;b<b>3</b><i></i><u></u></p>"
    );
}

#[test]
fn markdown_is_a_tree_of_nodes() {
    let node = markdown_hiccup("# Hi\n\n*a* `b` <i>\n\n- x\n");
    let s = html(&node);
    assert!(s.contains("<h1>Hi</h1>"), "{}", s);
    assert!(s.contains("<em>a</em>"), "{}", s);
    assert!(s.contains("<code>b</code>"), "{}", s);
    assert!(s.contains("&lt;i&gt;"), "{}", s);
    assert!(s.contains("<ul><li>x</li></ul>"), "{}", s);
}

#[test]
fn lines_of_the_wire_are_aligned() {
    assert_eq!(pad_left("A", 7), "      A");
    assert_eq!(pad_left("12345678", 7), "12345678");
    assert_eq!(pad_right("é", 3), "é  ");
    assert_eq!(
        packet_line("A", "server", "call", "f:1 vars={}"),
        "        ~ wire       A -> server   call  f:1 vars={}"
    );
}

#[test]
fn the_simulated_model_answers_by_rule() {
    let (t, calls) = fake_llm("RUN: ls \"a\"");
    assert_eq!(t, "{\"tool\":\"bash\",\"cmd\":\"ls \\\"a\\\"\"}");
    assert!(calls.is_empty());
    let (t, calls) = fake_llm("CALL:  pwd ");
    assert_eq!(t, "");
    assert_eq!(calls[0].id, "call_fake_1");
    assert_eq!(calls[0].args, "{\"cmd\":\"pwd\"}");
    assert_eq!(fake_llm("hi").0, "echo: hi");
    assert_eq!(fake_chunks("abcde"), vec!["ab", "cde"]);
    assert_eq!(fake_chunks("a"), vec!["a"]);
    assert!(fake_chunks("").is_empty());
}

#[test]
fn a_program_is_listed() {
    let p = durable::compiler::compile("fn go(x) { print(\"hi\", x); }", &FloatTable::new());
    let p = p.unwrap();
    match p.listing(&FloatTable::new()) {
        Try::Done(s) => {
            assert!(s.starts_with("fn 0 go (caps 0, params 1, locals 1)\n"), "{}", s);
            assert!(s.contains("     0  LoadGlobal(0)  ; print\n"), "{}", s);
            assert!(s.contains("     1  Const(1)  ; \"hi\"\n"), "{}", s);
            assert!(s.contains("     2  LoadLocal(0)\n"), "{}", s);
            assert!(s.contains("     3  Call(2)\n"), "{}", s);
        }
        _ => panic!("not listed"),
    }
    assert_eq!(p.const_str(0), Some("print"));
    assert_eq!(p.const_str(99), None);
}

#[test]
fn json_text_reads_back_as_deep_as_the_parser_goes() {
    let deep = |n: usize| format!("{}{}", "[".repeat(n), "]".repeat(n));
    let s = deep(127);
    assert_eq!(write_json(&read_json(&s).unwrap()), s);
    assert!(read_json(&deep(128)).is_err());
    let s = "{\"a\":-9223372036854775808,\"b\":\"\\u0001\u{1f600}\\\"\"}";
    assert_eq!(write_json(&read_json(s).unwrap()), s);
}
