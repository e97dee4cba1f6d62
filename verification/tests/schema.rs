use durable::data::same_data;
use durable::float::{Fact, FloatTable};
use durable::ir::BinOp;
use durable::schema::{decode_sum, encode_sum, fold_tagged, read_sum, Real, Tagged};
use durable::shape::Shape;
use durable::value::{Ask, Try};

fn rl(x: f64) -> Real {
    Real(x.to_bits())
}

fn fold(acc: Option<Tagged>, operand: &[u8]) -> Option<Tagged> {
    let mut floats = FloatTable::new();
    loop {
        match fold_tagged(&floats, acc, operand) {
            Try::Done(t) => return t,
            Try::Need(Ask::Arith(BinOp::Add, a, b)) => {
                let sum = f64::from_bits(a) + f64::from_bits(b);
                floats.learn(Fact::Arith(BinOp::Add, a, b, sum.to_bits()));
            }
            _ => panic!("no such outcome"),
        }
    }
}

#[test]
fn sum_roundtrip_tagged() {
    assert_eq!(decode_sum::<Real>(&encode_sum(rl(2.5))), Some(rl(2.5)));
    assert_eq!(decode_sum::<i64>(&encode_sum(-7i64)), Some(-7));
    assert_eq!(decode_sum::<u64>(&encode_sum(9u64)), Some(9));
    assert_eq!(decode_sum::<i64>(&encode_sum(rl(2.5))), None);
}

#[test]
fn fold_accumulates_same_tag() {
    let acc = fold(None, &encode_sum(rl(1.5)));
    let acc = fold(acc, &encode_sum(rl(2.0))).unwrap();
    assert_eq!(acc.tag, 0);
    assert_eq!(f64::from_bits(acc.bits), 3.5);
}

#[test]
fn fold_skips_mismatched_tag() {
    let acc = fold(None, &encode_sum(5i64));
    let acc = fold(acc, &encode_sum(rl(1.0))).unwrap();
    assert_eq!(acc.tag, 1);
    assert_eq!(acc.bits as i64, 5);
}

#[test]
fn sums_are_a_tag_and_eight_bytes() {
    let b = encode_sum(-2i64);
    assert_eq!(b, vec![1, 0xfe, 0xff, 0xff, 0xff, 0xff, 0xff, 0xff, 0xff]);
    assert!(read_sum(&b[..8]).is_none());
}

#[test]
fn shape_cbor_roundtrip() {
    let shape = Shape::record(vec![
        ("events".to_string(), Shape::list(Shape::Leaf)),
        ("evidence_by_id".to_string(), Shape::map(Shape::Leaf)),
        ("count".to_string(), Shape::Sum),
    ]);
    let bytes = shape.to_cbor();
    let back = Shape::from_cbor(&bytes).unwrap();
    assert!(same_data(&back.to_wire(), &shape.to_wire()));
}
