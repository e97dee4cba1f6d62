//! The collections behave like those of std.

use std::collections::{BTreeMap, VecDeque};

use durable::data::Data;
use durable::db::Db;
use durable::float::FloatTable;
use durable::op::{Batch, Write};
use durable::path::Path;
use durable::schema::{Deque, Dict, Leaf, List, Sum};

/// Numbers that look random.
struct Numbers(u64);

impl Numbers {
    fn next(&mut self) -> u64 {
        self.0 = self.0.wrapping_mul(6364136223846793005).wrapping_add(1442695040888963407);
        self.0 >> 33
    }
}

fn whole(i: i64) -> Data {
    if i >= 0 {
        Data::UInt(i as u64)
    } else {
        Data::NInt((-1 - i) as u64)
    }
}

fn num(d: &Data) -> i64 {
    match d {
        Data::UInt(n) => *n as i64,
        Data::NInt(n) => -1 - (*n as i64),
        _ => panic!("{:?}", d),
    }
}

fn name(d: &Data) -> String {
    match d {
        Data::Text(s) => s.clone(),
        _ => panic!("{:?}", d),
    }
}

#[test]
fn map_matches_btreemap() {
    let mut r = Numbers(1);
    for round in 0..20 {
        let mut db = Db::new();
        let map: Path<Dict<Leaf>> = Path::root();
        let mut model = BTreeMap::new();
        let mut batch = Batch::new();
        for _ in 0..(round * 2) {
            let k = format!("k{}", r.next() % 30);
            let v = r.next() as i64 - 1000;
            batch.write(map.key(&Data::Text(k.clone())).set(&whole(v)));
            model.insert(k, v);
        }
        db.commit_batch(&FloatTable::new(), batch).unwrap();
        assert_eq!(map.len(&db).unwrap(), model.len());
        for (k, v) in &model {
            let got = map.get(&db, &Data::Text(k.clone())).unwrap().unwrap();
            assert_eq!(num(&got), *v);
        }
        let mut got: Vec<(String, i64)> =
            map.iter(&db).unwrap().iter().map(|(k, v)| (name(k), num(v))).collect();
        got.sort();
        let want: Vec<(String, i64)> = model.into_iter().collect();
        assert_eq!(got, want);
        assert!(map.get(&db, &Data::Text("absent".to_string())).unwrap().is_none());
    }
}

#[test]
fn list_roundtrips_in_order() {
    let mut r = Numbers(2);
    for n in 0..30usize {
        let mut db = Db::new();
        let list: Path<List<Leaf>> = Path::namespaced("list");
        let values: Vec<i64> = (0..n).map(|_| r.next() as i64 - 5000).collect();
        let mut batch = Batch::new();
        for v in &values {
            batch.push(&list, &whole(*v));
        }
        db.commit_batch(&FloatTable::new(), batch).unwrap();
        assert_eq!(list.len(&db).unwrap(), n as u64);
        let got: Vec<i64> = list.iter(&db).unwrap().iter().map(num).collect();
        assert_eq!(got, values);
        for v in values.iter().rev() {
            assert_eq!(num(&list.pop(&mut db).unwrap().unwrap()), *v);
        }
        assert!(list.pop(&mut db).unwrap().is_none());
    }
}

#[test]
fn one_batch_pushes_to_both_ends() {
    let mut db = Db::new();
    let dq: Path<Deque<Leaf>> = Path::root();
    let mut batch = Batch::new();
    batch.push_back(&dq, &whole(1));
    batch.push_front(&dq, &whole(0));
    db.commit_batch(&FloatTable::new(), batch).unwrap();
    assert_eq!(dq.len(&db).unwrap(), 2);
    let got: Vec<i64> = dq.iter(&db).unwrap().iter().map(num).collect();
    assert_eq!(got, vec![0, 1]);

    let mut batch = Batch::new();
    batch.extend(vec![
        dq.push_front_op(&whole(-1)),
        dq.push_back_op(&whole(2)),
        dq.push_front_op(&whole(-2)),
        dq.push_back_op(&whole(3)),
    ]);
    db.commit_batch(&FloatTable::new(), batch).unwrap();
    let got: Vec<i64> = dq.iter(&db).unwrap().iter().map(num).collect();
    assert_eq!(got, vec![-2, -1, 0, 1, 2, 3]);
    assert_eq!(num(&dq.pop_front(&mut db).unwrap().unwrap()), -2);
    assert_eq!(num(&dq.pop_back(&mut db).unwrap().unwrap()), 3);
}

#[test]
fn deques_and_lists_of_one_batch_stay_apart() {
    let mut db = Db::new();
    let a: Path<Deque<Leaf>> = Path::namespaced("a");
    let b: Path<Deque<Leaf>> = Path::namespaced("b");
    let l: Path<List<Leaf>> = Path::namespaced("l");
    let mut batch = Batch::new();
    batch.push_back(&a, &whole(1));
    batch.push(&l, &whole(5));
    batch.push_front(&b, &whole(2));
    batch.push_front(&a, &whole(3));
    batch.push(&l, &whole(6));
    batch.push_back(&b, &whole(4));
    db.commit_batch(&FloatTable::new(), batch).unwrap();
    let of = |d: &Path<Deque<Leaf>>| -> Vec<i64> { d.iter(&db).unwrap().iter().map(num).collect() };
    assert_eq!(of(&a), vec![3, 1]);
    assert_eq!(of(&b), vec![2, 4]);
    let got: Vec<i64> = l.iter(&db).unwrap().iter().map(num).collect();
    assert_eq!(got, vec![5, 6]);
}

#[test]
fn deque_matches_vecdeque() {
    let mut r = Numbers(3);
    for n in 0..30usize {
        let mut db = Db::new();
        let dq: Path<Deque<Leaf>> = Path::root();
        let mut model: VecDeque<i64> = VecDeque::new();
        for _ in 0..n {
            let v = r.next() as i64;
            if r.next() % 2 == 0 {
                dq.push_front(&mut db, &whole(v)).unwrap();
                model.push_front(v);
            } else {
                dq.push_back(&mut db, &whole(v)).unwrap();
                model.push_back(v);
            }
        }
        assert_eq!(dq.len(&db).unwrap(), model.len() as u64);
        let got: Vec<i64> = dq.iter(&db).unwrap().iter().map(num).collect();
        assert_eq!(got, Vec::from(model.clone()));
        let mut front = true;
        while !model.is_empty() {
            if front {
                assert_eq!(dq.pop_front(&mut db).unwrap().map(|d| num(&d)), model.pop_front());
            } else {
                assert_eq!(dq.pop_back(&mut db).unwrap().map(|d| num(&d)), model.pop_back());
            }
            front = !front;
        }
        assert!(dq.is_empty(&db).unwrap());
        assert!(dq.pop_front(&mut db).unwrap().is_none());
    }
}

#[test]
fn sum_equals_total_of_deltas() {
    let mut r = Numbers(4);
    for n in 0..30usize {
        let mut db = Db::new();
        let total: Path<Sum<i64>> = Path::root();
        let deltas: Vec<i64> = (0..n).map(|_| (r.next() % 2000) as i64 - 1000).collect();
        let writes: Vec<Write> = deltas.iter().map(|d| total.add(*d)).collect();
        db.apply(&FloatTable::new(), writes).unwrap();
        assert_eq!(total.get(&db).unwrap(), deltas.iter().sum::<i64>());
    }
}

#[test]
fn namespaces_do_not_see_each_other() {
    let mut db = Db::new();
    let a: Path<List<Leaf>> = Path::namespaced("a");
    let b: Path<List<Leaf>> = Path::namespaced("ab");
    a.push(&mut db, &whole(1)).unwrap();
    b.push(&mut db, &whole(2)).unwrap();
    db.run(&FloatTable::new(), a.clear()).unwrap();
    assert!(a.is_empty(&db).unwrap());
    assert_eq!(num(&b.get(&db, 0).unwrap().unwrap()), 2);
}

#[test]
fn a_truncated_deque_keeps_its_front() {
    let mut db = Db::new();
    let dq: Path<Deque<Leaf>> = Path::root();
    for i in 0..5 {
        dq.push_front(&mut db, &whole(i)).unwrap();
    }
    dq.truncate_back(&mut db, 2).unwrap();
    let got: Vec<i64> = dq.iter(&db).unwrap().iter().map(num).collect();
    assert_eq!(got, vec![4, 3]);
    dq.truncate_back(&mut db, 9).unwrap();
    assert_eq!(dq.len(&db).unwrap(), 2);
}

/// `n` of `wrap` around a number.
fn nested(n: usize, wrap: impl Fn(Data) -> Data) -> Data {
    let mut d = Data::UInt(7);
    for _ in 0..n {
        d = wrap(d);
    }
    d
}

fn read_back(d: &Data) -> Result<bool, String> {
    let mut db = Db::new();
    let leaf: Path<Leaf> = Path::root();
    db.run(&FloatTable::new(), leaf.set(d)).unwrap();
    match leaf.get(&db) {
        Ok(Some(e)) => Ok(durable::data::same_data(d, &e)),
        Ok(None) => Ok(false),
        Err(e) => Err(e.message()),
    }
}

#[test]
fn a_leaf_reads_back_as_deep_as_the_decoder_goes() {
    let arrays = |d: Data| Data::Array(vec![Data::Null, d]);
    let maps = |d: Data| Data::Dict(vec![(Data::Text("k".to_string()), d)]);
    let tags = |d: Data| Data::Tag(27, Box::new(d));
    assert_eq!(read_back(&nested(256, arrays)), Ok(true));
    assert_eq!(read_back(&nested(256, maps)), Ok(true));
    assert_eq!(read_back(&nested(256, tags)), Ok(true));
    assert!(read_back(&nested(257, arrays)).is_err());
}

#[test]
fn every_kind_of_item_reads_back() {
    let items = vec![
        Data::Null,
        Data::Bool(true),
        Data::UInt(u64::MAX),
        Data::NInt(u64::MAX),
        Data::Float((-0.0f64).to_bits()),
        Data::Float(1.0f64.to_bits()),
        Data::Float(0.1f64.to_bits()),
        Data::Float(f64::INFINITY.to_bits()),
        Data::Float(5e-324f64.to_bits()),
        Data::Text("h\u{e9}\u{0}\u{1f600}".to_string()),
        Data::Bytes(vec![0, 255]),
        Data::Tag(0, Box::new(Data::Text("x".to_string()))),
        Data::Tag(u64::MAX, Box::new(Data::Bytes(vec![1]))),
        Data::Dict(vec![(Data::Float(2.5f64.to_bits()), Data::Null), (Data::Null, Data::Null)]),
    ];
    for d in &items {
        assert_eq!(read_back(d), Ok(true), "{:?}", d);
    }
}

#[test]
fn clearing_all_keeps_what_the_same_batch_puts() {
    let mut db = Db::new();
    let root: Path<Dict<Leaf>> = Path::root();
    let key = |k: &str| root.key(&Data::Text(k.to_string()));
    db.apply(&FloatTable::new(), vec![key("a").set(&whole(1)), key("b").set(&whole(2))]).unwrap();
    // the root has no upper bound: what is committed is deleted key by key
    db.apply(&FloatTable::new(), vec![key("c").set(&whole(3)), root.clear()]).unwrap();
    assert!(key("a").get(&db).unwrap().is_none());
    assert!(key("b").get(&db).unwrap().is_none());
    assert_eq!(num(&key("c").get(&db).unwrap().unwrap()), 3);

    // a subtree with an upper bound is deleted as a range, new keys with it
    let map: Path<Dict<Leaf>> = Path::namespaced("m");
    let entry = |k: &str| map.key(&Data::Text(k.to_string()));
    db.apply(&FloatTable::new(), vec![entry("d").set(&whole(4)), map.clear()]).unwrap();
    assert!(entry("d").get(&db).unwrap().is_none());
    assert_eq!(num(&key("c").get(&db).unwrap().unwrap()), 3);
}
