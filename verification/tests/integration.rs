use durable::data::{array2, same_data, Data};
use durable::db::Db;
use durable::error::Error;
use durable::float::{Fact, FloatTable};
use durable::ir::BinOp;
use durable::op::{Batch, Op, Write};
use durable::path::Path;
use durable::schema::{Deque, Dict, Leaf, List, Real, Schema, Sum};
use durable::value::Ask;

struct GroupState;
impl Schema for GroupState {}

struct Store;
impl Schema for Store {}

fn text(s: &str) -> Data {
    Data::Text(s.to_string())
}

fn edge(a: u64, b: u64) -> Data {
    array2(Data::UInt(a), Data::UInt(b))
}

fn vote(a: &str, b: &str, ratio: i64) -> Data {
    Data::Dict(vec![
        (text("a"), text(a)),
        (text("b"), text(b)),
        (text("ratio"), Data::UInt(ratio as u64)),
    ])
}

fn scopes(root: &Path<Store>) -> Path<Dict<GroupState>> {
    root.child_field(0)
}

fn nodes(root: &Path<Store>) -> Path<Dict<Leaf>> {
    root.child_field(1)
}

fn log(root: &Path<Store>) -> Path<List<Leaf>> {
    root.child_field(2)
}

fn edges(g: &Path<GroupState>) -> Path<Dict<Sum<Real>>> {
    g.child_field(0)
}

fn voted_pairs(g: &Path<GroupState>) -> Path<Dict<Leaf>> {
    g.child_field(1)
}

fn recent_votes(g: &Path<GroupState>) -> Path<Deque<Leaf>> {
    g.child_field(2)
}

fn item_count(g: &Path<GroupState>) -> Path<Sum<i64>> {
    g.child_field(3)
}

fn scope(name: &str) -> Path<GroupState> {
    scopes(&Path::root()).key(&text(name))
}

fn rl(x: f64) -> Real {
    Real(x.to_bits())
}

fn float(r: Real) -> f64 {
    f64::from_bits(r.0)
}

/// Applies the writes, with the sums of floats that they turn out to need.
fn apply(db: &mut Db, writes: impl Fn() -> Vec<Write>) {
    let mut floats = FloatTable::new();
    loop {
        match db.apply(&floats, writes()) {
            Ok(()) => return,
            Err(Error::Need(Ask::Arith(BinOp::Add, a, b))) => {
                let sum = f64::from_bits(a) + f64::from_bits(b);
                floats.learn(Fact::Arith(BinOp::Add, a, b, sum.to_bits()));
            }
            Err(e) => panic!("{:?}", e),
        }
    }
}

fn opt_same(got: Option<Data>, want: Option<Data>) -> bool {
    match (got, want) {
        (Some(a), Some(b)) => same_data(&a, &b),
        (None, None) => true,
        _ => false,
    }
}

fn items_same(got: &[Data], want: &[Data]) -> bool {
    got.len() == want.len() && got.iter().zip(want).all(|(a, b)| same_data(a, b))
}

fn texts(items: &[Data]) -> Vec<String> {
    items
        .iter()
        .map(|d| match d {
            Data::Text(s) => s.clone(),
            other => panic!("{:?}", other),
        })
        .collect()
}

#[test]
fn leaf_set_get_delete() {
    let mut db = Db::new();
    let leaf = nodes(&Path::root()).key(&text("reddit.com/r/rust"));
    assert!(leaf.get(&db).unwrap().is_none());
    apply(&mut db, || vec![leaf.set(&text("Rust"))]);
    assert!(opt_same(leaf.get(&db).unwrap(), Some(text("Rust"))));
    apply(&mut db, || vec![leaf.delete()]);
    assert!(leaf.get(&db).unwrap().is_none());
}

#[test]
fn sum_accumulates_with_blind_merges() {
    let mut db = Db::new();
    let edges = edges(&scope("s"));
    let e = edge(3, 7);
    apply(&mut db, || {
        vec![
            edges.key(&e).add(rl(2.0)),
            edges.key(&e).add(rl(1.0)),
            edges.key(&e).add(rl(0.5)),
        ]
    });
    assert_eq!(float(edges.key(&e).get(&db).unwrap()), 3.5);
    apply(&mut db, || vec![edges.key(&e).add(rl(-1.5))]);
    assert_eq!(float(edges.key(&e).get(&db).unwrap()), 2.0);
    assert_eq!(float(edges.key(&edge(9, 9)).get(&db).unwrap()), 0.0);
}

#[test]
fn sum_set_then_merge() {
    let mut db = Db::new();
    let count = item_count(&scope("s"));
    apply(&mut db, || vec![count.set(10)]);
    apply(&mut db, || vec![count.add(5)]);
    assert_eq!(count.get(&db).unwrap(), 15);
}

#[test]
fn reified_writes_are_inspectable_data() {
    let edges = edges(&scope("s"));
    let merge = edges.key(&edge(1, 2)).add(rl(1.0));
    assert!(matches!(merge.op(), Op::Merge { .. }));

    let put = nodes(&Path::root()).key(&text("x")).set(&text("y"));
    assert!(matches!(put.op(), Op::Put { .. }));

    let clear = scopes(&Path::root()).clear();
    assert!(matches!(clear.op(), Op::DeletePrefix { .. }));
}

#[test]
fn point_update_touches_only_its_own_key() {
    let mut db = Db::new();
    let rust = scope("rust");
    let python = scope("python");
    apply(&mut db, || {
        let mut writes = Vec::new();
        for j in 0..5u64 {
            writes.push(edges(&rust).key(&edge(0, j)).add(rl(j as f64 + 1.0)));
            writes.push(edges(&python).key(&edge(0, j)).add(rl(100.0)));
        }
        writes.push(recent_votes(&rust).push_back_op(&vote("a", "b", 2)));
        writes
    });

    apply(&mut db, || vec![edges(&rust).key(&edge(0, 2)).add(rl(10.0))]);

    assert_eq!(float(edges(&rust).key(&edge(0, 2)).get(&db).unwrap()), 13.0);
    assert_eq!(float(edges(&rust).key(&edge(0, 0)).get(&db).unwrap()), 1.0);
    assert_eq!(float(edges(&rust).key(&edge(0, 4)).get(&db).unwrap()), 5.0);
    for j in 0..5u64 {
        assert_eq!(float(edges(&python).key(&edge(0, j)).get(&db).unwrap()), 100.0);
    }
    assert_eq!(recent_votes(&rust).len(&db).unwrap(), 1);
}

#[test]
fn map_keys_len_contains_entries() {
    let mut db = Db::new();
    let nodes = nodes(&Path::root());
    apply(&mut db, || {
        vec![
            nodes.key(&text("a")).set(&text("1")),
            nodes.key(&text("b")).set(&text("2")),
            nodes.key(&text("c")).set(&text("3")),
        ]
    });
    let mut keys = texts(&nodes.keys(&db).unwrap());
    keys.sort();
    assert_eq!(keys, vec!["a".to_string(), "b".to_string(), "c".to_string()]);
    assert_eq!(nodes.len(&db).unwrap(), 3);
    assert!(nodes.contains(&db, &text("b")));
    assert!(!nodes.contains(&db, &text("z")));
    assert!(!nodes.is_empty(&db));

    let mut pairs: Vec<(String, String)> = Vec::new();
    for (k, v) in nodes.iter(&db).unwrap() {
        pairs.push((texts(&[k])[0].clone(), texts(&[v])[0].clone()));
    }
    pairs.sort();
    assert_eq!(
        pairs,
        vec![
            ("a".to_string(), "1".to_string()),
            ("b".to_string(), "2".to_string()),
            ("c".to_string(), "3".to_string()),
        ]
    );
}

#[test]
fn map_keys_dedup_across_nested_subkeys() {
    let mut db = Db::new();
    let scopes = scopes(&Path::root());
    let rust = scope("rust");
    apply(&mut db, || {
        vec![
            edges(&rust).key(&edge(0, 1)).add(rl(1.0)),
            edges(&rust).key(&edge(0, 2)).add(rl(1.0)),
            item_count(&rust).add(3),
            recent_votes(&rust).push_back_op(&vote("a", "b", 1)),
            item_count(&scope("python")).add(1),
        ]
    });
    let mut keys = texts(&scopes.keys(&db).unwrap());
    keys.sort();
    assert_eq!(keys, vec!["python".to_string(), "rust".to_string()]);
    assert_eq!(scopes.len(&db).unwrap(), 2);
    assert_eq!(scopes.entries(&db).unwrap().len(), 2);
}

#[test]
fn map_clear_deletes_subtree_only() {
    let mut db = Db::new();
    let rust = scope("rust");
    apply(&mut db, || {
        vec![
            edges(&rust).key(&edge(0, 1)).add(rl(1.0)),
            edges(&rust).key(&edge(0, 2)).add(rl(2.0)),
            item_count(&rust).add(5),
        ]
    });
    apply(&mut db, || vec![edges(&rust).clear()]);
    assert_eq!(edges(&rust).len(&db).unwrap(), 0);
    assert_eq!(float(edges(&rust).key(&edge(0, 1)).get(&db).unwrap()), 0.0);
    assert_eq!(item_count(&rust).get(&db).unwrap(), 5);
}

#[test]
fn transform_values_decays_all_edges_in_one_batch() {
    let mut db = Db::new();
    let edges = edges(&scope("rust"));
    apply(&mut db, || {
        (1..=4u64)
            .map(|j| edges.key(&edge(0, j)).add(rl(j as f64 * 10.0)))
            .collect()
    });
    let decay = |_k: &Data, w: Real| {
        let decayed = float(w) * 0.5;
        if decayed <= 5.0 {
            None
        } else {
            Some(rl(decayed))
        }
    };
    let writes = edges.transform_values(&db, decay).unwrap();
    db.apply(&FloatTable::new(), writes).unwrap();

    assert_eq!(float(edges.key(&edge(0, 1)).get(&db).unwrap()), 0.0);
    assert_eq!(float(edges.key(&edge(0, 2)).get(&db).unwrap()), 10.0);
    assert_eq!(float(edges.key(&edge(0, 3)).get(&db).unwrap()), 15.0);
    assert_eq!(float(edges.key(&edge(0, 4)).get(&db).unwrap()), 20.0);
    assert_eq!(edges.len(&db).unwrap(), 3);
}

#[test]
fn list_push_pop_iter() {
    let mut db = Db::new();
    let log = log(&Path::root());
    assert!(log.is_empty(&db).unwrap());
    assert_eq!(log.push(&mut db, &Data::UInt(10)).unwrap(), 0);
    assert_eq!(log.push(&mut db, &Data::UInt(20)).unwrap(), 1);
    assert_eq!(log.push(&mut db, &Data::UInt(30)).unwrap(), 2);

    assert_eq!(log.len(&db).unwrap(), 3);
    assert!(opt_same(log.get(&db, 1).unwrap(), Some(Data::UInt(20))));
    assert!(log.get(&db, 3).unwrap().is_none());
    assert!(items_same(
        &log.iter(&db).unwrap(),
        &[Data::UInt(10), Data::UInt(20), Data::UInt(30)]
    ));

    assert!(opt_same(log.pop(&mut db).unwrap(), Some(Data::UInt(30))));
    assert_eq!(log.len(&db).unwrap(), 2);
    assert!(items_same(&log.iter(&db).unwrap(), &[Data::UInt(10), Data::UInt(20)]));
}

#[test]
fn batched_list_pushes_get_contiguous_indices() {
    let mut db = Db::new();
    let log = log(&Path::root());
    let mut batch = Batch::new();
    for n in [1, 2, 3] {
        batch.push(&log, &Data::UInt(n));
    }
    db.commit_batch(&FloatTable::new(), batch).unwrap();
    assert!(items_same(
        &log.iter(&db).unwrap(),
        &[Data::UInt(1), Data::UInt(2), Data::UInt(3)]
    ));

    let mut batch = Batch::new();
    for n in [4, 5] {
        batch.push(&log, &Data::UInt(n));
    }
    db.commit_batch(&FloatTable::new(), batch).unwrap();
    let want: Vec<Data> = (1..=5).map(Data::UInt).collect();
    assert!(items_same(&log.iter(&db).unwrap(), &want));
    assert_eq!(log.len(&db).unwrap(), 5);
}

fn numbered(n: i64) -> Data {
    vote(&format!("a{}", n), &format!("b{}", n), n)
}

#[test]
fn deque_behaves_like_a_double_ended_queue() {
    let mut db = Db::new();
    let dq = recent_votes(&scope("s"));
    let v = numbered;

    dq.push_back(&mut db, &v(1)).unwrap();
    dq.push_back(&mut db, &v(2)).unwrap();
    dq.push_front(&mut db, &v(0)).unwrap();

    assert_eq!(dq.len(&db).unwrap(), 3);
    assert!(items_same(&dq.iter(&db).unwrap(), &[v(0), v(1), v(2)]));
    assert!(opt_same(dq.front(&db).unwrap(), Some(v(0))));
    assert!(opt_same(dq.back(&db).unwrap(), Some(v(2))));

    assert!(opt_same(dq.pop_front(&mut db).unwrap(), Some(v(0))));
    assert!(opt_same(dq.pop_back(&mut db).unwrap(), Some(v(2))));
    assert!(items_same(&dq.iter(&db).unwrap(), &[v(1)]));
    assert!(opt_same(dq.pop_front(&mut db).unwrap(), Some(v(1))));
    assert!(dq.pop_front(&mut db).unwrap().is_none());
    assert!(dq.is_empty(&db).unwrap());
}

#[test]
fn deque_supports_capped_recent_window() {
    let mut db = Db::new();
    let dq = recent_votes(&scope("s"));
    for n in 0..10 {
        dq.push_back(&mut db, &vote(&format!("{}", n), "x", n)).unwrap();
        while dq.len(&db).unwrap() > 3 {
            dq.pop_front(&mut db).unwrap();
        }
    }
    let want: Vec<Data> = (7..10).map(|n| vote(&format!("{}", n), "x", n)).collect();
    assert!(items_same(&dq.iter(&db).unwrap(), &want));
}

#[test]
fn deque_truncate_back_caps_length_keeping_front() {
    let mut db = Db::new();
    let dq = recent_votes(&scope("s"));
    for n in 0..10 {
        dq.push_back(&mut db, &vote(&format!("{}", n), "x", n)).unwrap();
    }
    dq.truncate_back(&mut db, 3).unwrap();
    let want: Vec<Data> = (0..3).map(|n| vote(&format!("{}", n), "x", n)).collect();
    assert!(items_same(&dq.iter(&db).unwrap(), &want));

    dq.truncate_back(&mut db, 10).unwrap();
    assert_eq!(dq.len(&db).unwrap(), 3);
}

fn vote_batch(rust: &Path<GroupState>) -> Vec<Write> {
    vec![
        edges(rust).key(&edge(0, 1)).add(rl(2.0)),
        edges(rust).key(&edge(1, 0)).add(rl(1.0)),
        voted_pairs(rust).key(&edge(0, 1)).set(&Data::Bool(true)),
        recent_votes(rust).push_back_op(&vote("0", "1", 2)),
        item_count(rust).add(2),
    ]
}

#[test]
fn one_batch_commits_all_or_nothing_and_persists() {
    let mut first = Db::new();
    let rust = scope("rust");
    apply(&mut first, || vote_batch(&rust));

    let db = first.copy();
    assert_eq!(float(edges(&rust).key(&edge(0, 1)).get(&db).unwrap()), 2.0);
    assert_eq!(float(edges(&rust).key(&edge(1, 0)).get(&db).unwrap()), 1.0);
    assert!(opt_same(
        voted_pairs(&rust).key(&edge(0, 1)).get(&db).unwrap(),
        Some(Data::Bool(true))
    ));
    assert_eq!(recent_votes(&rust).len(&db).unwrap(), 1);
    assert_eq!(item_count(&rust).get(&db).unwrap(), 2);
}

#[test]
fn a_batch_that_lacks_a_sum_changes_nothing() {
    let mut db = Db::new();
    let rust = scope("rust");
    apply(&mut db, || vote_batch(&rust));
    let before = db.rows.len();
    let got = db.apply(&FloatTable::new(), vote_batch(&rust));
    assert!(matches!(got, Err(Error::Need(Ask::Arith(BinOp::Add, _, _)))));
    assert_eq!(db.rows.len(), before);
    assert_eq!(item_count(&rust).get(&db).unwrap(), 2);
    assert_eq!(recent_votes(&rust).len(&db).unwrap(), 1);
}

#[test]
fn disable_wal_visible_within_session() {
    let mut db = Db::new();
    let count = item_count(&scope("s"));
    db.run(&FloatTable::new(), count.add(7)).unwrap();
    assert_eq!(count.get(&db).unwrap(), 7);
}

#[test]
fn wal_only_durability_writes() {
    let mut db = Db::new();
    let node = nodes(&Path::root()).key(&text("k"));
    db.run(&FloatTable::new(), node.set(&text("v"))).unwrap();
    assert!(opt_same(node.get(&db).unwrap(), Some(text("v"))));
}

#[test]
fn namespaced_roots_do_not_collide() {
    let mut db = Db::new();
    let a = nodes(&Path::namespaced("a")).key(&text("k"));
    let b = nodes(&Path::namespaced("b")).key(&text("k"));
    apply(&mut db, || vec![a.set(&text("av"))]);
    apply(&mut db, || vec![b.set(&text("bv"))]);
    assert!(opt_same(a.get(&db).unwrap(), Some(text("av"))));
    assert!(opt_same(b.get(&db).unwrap(), Some(text("bv"))));
}

#[test]
fn persistence_across_reopen_for_all_collection_kinds() {
    let mut first = Db::new();
    let root = Path::<Store>::root();
    let s = scope("s");
    apply(&mut first, || vec![nodes(&root).key(&text("n")).set(&text("N"))]);
    log(&root).push(&mut first, &Data::UInt(42)).unwrap();
    apply(&mut first, || vec![edges(&s).key(&edge(1, 2)).add(rl(9.0))]);
    recent_votes(&s).push_back(&mut first, &vote("a", "b", 3)).unwrap();

    let db = first.copy();
    assert!(opt_same(nodes(&root).key(&text("n")).get(&db).unwrap(), Some(text("N"))));
    assert!(items_same(&log(&root).iter(&db).unwrap(), &[Data::UInt(42)]));
    assert_eq!(float(edges(&s).key(&edge(1, 2)).get(&db).unwrap()), 9.0);
    assert!(opt_same(recent_votes(&s).front(&db).unwrap(), Some(vote("a", "b", 3))));
}
