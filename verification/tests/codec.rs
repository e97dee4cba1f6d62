use durable::bytes::{be_bytes, bytes_lt, le_bytes, read_be, read_le};
use durable::codec::{
    child_key, child_scan_prefix, meta_key, order_i64, order_u64, prefix_upper_bound, put_segment,
    put_uvarint, read_segment, read_uvarint,
};

#[test]
fn uvarint_roundtrip() {
    for value in [0u64, 1, 127, 128, 300, 16384, u32::MAX as u64, u64::MAX] {
        let mut buf = Vec::new();
        put_uvarint(&mut buf, value);
        let (decoded, used) = read_uvarint(&buf).unwrap();
        assert_eq!(decoded, value);
        assert_eq!(used, buf.len());
    }
}

#[test]
fn read_uvarint_rejects_truncated() {
    assert!(read_uvarint(&[0x80]).is_none());
    assert!(read_uvarint(&[]).is_none());
}

#[test]
fn read_uvarint_rejects_overlong() {
    let mut bytes = vec![0x80u8; 9];
    bytes.push(0x02);
    assert!(read_uvarint(&bytes).is_none());
    bytes[9] = 0x01;
    assert_eq!(read_uvarint(&bytes), Some((1 << 63, 10)));
    bytes[9] = 0x81;
    bytes.push(0x00);
    assert!(read_uvarint(&bytes).is_none());
    assert_eq!(read_uvarint(&[0x80, 0x00, 0x07]), Some((0, 2)));
}

#[test]
fn segment_roundtrip_and_self_delimiting() {
    let mut buf = Vec::new();
    put_segment(&mut buf, b"alpha");
    put_segment(&mut buf, b"");
    put_segment(&mut buf, &[0x00, 0xff, 0x01]);

    let (a, n1) = read_segment(&buf).unwrap();
    assert_eq!(a, b"alpha");
    let (b, n2) = read_segment(&buf[n1..]).unwrap();
    assert_eq!(b, b"");
    let (c, _) = read_segment(&buf[n1 + n2..]).unwrap();
    assert_eq!(c, &[0x00, 0xff, 0x01]);
}

#[test]
fn segment_no_false_prefix() {
    // seg("a") must not be a byte-prefix of seg("ab"): length-prefixing guards this.
    let mut a = Vec::new();
    put_segment(&mut a, b"a");
    let mut ab = Vec::new();
    put_segment(&mut ab, b"ab");
    assert!(!ab.starts_with(&a));
}

#[test]
fn upper_bound_basics() {
    assert_eq!(prefix_upper_bound(&[1, 2, 3]), Some(vec![1, 2, 4]));
    assert_eq!(prefix_upper_bound(&[1, 2, 0xff]), Some(vec![1, 3]));
    assert_eq!(prefix_upper_bound(&[0xff, 0xff]), None);
    assert_eq!(prefix_upper_bound(&[]), None);
}

#[test]
fn order_i64_is_monotonic() {
    let mut values = [-5i64, -1, 0, 1, 5, i64::MIN, i64::MAX];
    values.sort();
    // Encoded byte order must match signed numeric order.
    for pair in values.windows(2) {
        assert!(order_i64(pair[0]) < order_i64(pair[1]));
    }
}

#[test]
fn order_u64_is_big_endian() {
    assert_eq!(order_u64(1), [0, 0, 0, 0, 0, 0, 0, 1]);
    assert_eq!(order_u64(0x0102_0304_0506_0708), [1, 2, 3, 4, 5, 6, 7, 8]);
    assert_eq!(order_i64(0), [0x80, 0, 0, 0, 0, 0, 0, 0]);
    assert_eq!(order_i64(-1), [0x7f, 0xff, 0xff, 0xff, 0xff, 0xff, 0xff, 0xff]);
}

#[test]
fn varints_keep_within_64_bits() {
    assert_eq!(read_uvarint(&[0xff; 11]), None);
    let mut ten = [0xffu8; 10];
    ten[9] = 0x7f;
    assert_eq!(read_uvarint(&ten), None);
    ten[9] = 0x01;
    assert_eq!(read_uvarint(&ten), Some((u64::MAX, 10)));
    assert_eq!(read_uvarint(&[0x80, 0x00]), Some((0, 2)));
}

#[test]
fn keys_lie_under_their_parent() {
    assert_eq!(child_key(&[7], b"ab"), vec![7, 1, 2, b'a', b'b']);
    assert_eq!(meta_key(&[7], b"len"), vec![7, 0, 3, b'l', b'e', b'n']);
    assert_eq!(child_scan_prefix(&[7]), vec![7, 1]);
    let under = child_key(&[7], b"ab");
    let end = prefix_upper_bound(&[7]).unwrap();
    assert!(bytes_lt(&[7], &under));
    assert!(bytes_lt(&under, &end));
    assert!(!bytes_lt(&[8], &end));
}

#[test]
fn fixed_width_numbers_read_back() {
    for x in [0u64, 1, 255, 256, 0x0102_0304_0506_0708, u64::MAX] {
        assert_eq!(read_be(&be_bytes(x)), x);
        assert_eq!(read_le(&le_bytes(x)), x);
        assert_eq!(be_bytes(x), x.to_be_bytes());
        assert_eq!(le_bytes(x), x.to_le_bytes());
    }
}
