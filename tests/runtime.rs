use pstruct::codec::{decode, encode, encode_buf, size};
use pstruct::parser::parse_file;
use pstruct::primitive::{PError, Primitive};
use pstruct::types::File;
use pstruct::value::Value;

fn schema(text: &str) -> File {
    parse_file(text).unwrap()
}

fn rec(fields: Vec<Value>) -> Value {
    Value::Record(fields)
}

fn text(s: &str) -> Value {
    Value::Text(s.as_bytes().to_vec())
}

#[test]
fn simple() {
    let x: u64 = 42069;
    let mut buf: [u8; 8] = [0; 8];
    x.encode_le(&mut buf).unwrap();
    let mut y: u64 = 0;
    y.decode_le(&buf).unwrap();
    assert_eq!(y, x, "u64 decode_le");
}

#[test]
fn primitive_byte_orders() {
    let x: u16 = 0x0102;
    let mut buf = [0u8; 2];
    x.encode_le(&mut buf).unwrap();
    assert_eq!(buf, [0x02, 0x01]);
    x.encode_be(&mut buf).unwrap();
    assert_eq!(buf, [0x01, 0x02]);
    let mut y: u16 = 0;
    y.decode_be(&[0x01, 0x02, 0xff]).unwrap();
    assert_eq!(y, 0x0102);
    let z: i32 = -2;
    let mut buf = [0u8; 5];
    z.encode_be(&mut buf).unwrap();
    assert_eq!(buf, [0xff, 0xff, 0xff, 0xfe, 0x00]);
    let mut w: i32 = 0;
    w.decode_be(&buf).unwrap();
    assert_eq!(w, -2);
}

#[test]
fn primitive_short_buffers() {
    let x: u32 = 7;
    let mut buf = [9u8; 3];
    assert!(matches!(x.encode_le(&mut buf), Err(PError::BufTooSmall)));
    assert_eq!(buf, [9, 9, 9]);
    let mut y: u32 = 5;
    assert!(matches!(y.decode_le(&[1, 2, 3]), Err(PError::NotEnoughData)));
    assert_eq!(y, 5);
}

#[test]
fn u16_field_byte_order() {
    let f = schema("struct p {\n  a u16\n  b u16 endian:big\n}\n");
    let v = rec(vec![Value::Unsigned(0x0102), Value::Unsigned(0x0102)]);
    assert_eq!(encode(&f, "p", &v).unwrap(), vec![0x02, 0x01, 0x01, 0x02]);
}

#[test]
fn string_field_bytes() {
    let f = schema("options endian:big\nstruct s {\n  name string\n}\n");
    let v = rec(vec![text("AB")]);
    assert_eq!(encode(&f, "s", &v).unwrap(), vec![0x00, 0x02, b'A', b'B']);
    let f = schema("struct s {\n  name string\n}\n");
    assert_eq!(encode(&f, "s", &v).unwrap(), vec![0x02, 0x00, b'A', b'B']);
}

const GAME: &str = "
struct player {
    id u32 endian:big
    hp i16
    flags [3]byte
    name string
    tag [6]cstring
    count u8
    scores [count]i64
    history []u16 array_size_type:u8
    speed f64
    pos point
    waypoints []point
    nicks [2]string
}
struct point {
    x i8
    y u64 endian:big
}
";

fn point(x: i64, y: u64) -> Value {
    rec(vec![Value::Signed(x), Value::Unsigned(y)])
}

fn player() -> Value {
    rec(vec![
        Value::Unsigned(0xdeadbeef),
        Value::Signed(-300),
        Value::List(vec![Value::Unsigned(1), Value::Unsigned(2), Value::Unsigned(3)]),
        text("hero"),
        text("ab"),
        Value::Unsigned(2),
        Value::List(vec![Value::Signed(-1), Value::Signed(i64::MAX)]),
        Value::List(vec![Value::Unsigned(7)]),
        Value::Unsigned(1.5f64.to_bits()),
        point(-128, 1),
        Value::List(vec![point(1, 2), point(3, 4)]),
        Value::List(vec![text(""), text("z")]),
    ])
}

#[test]
fn round_trip_with_every_kind_of_array() {
    let f = schema(GAME);
    let v = player();
    let bytes = encode(&f, "player", &v).unwrap();
    let back = decode(&f, "player", &bytes).unwrap();
    assert_eq!(back, v);
}

#[test]
fn encoding_length_is_size() {
    let f = schema(GAME);
    let v = player();
    let bytes = encode(&f, "player", &v).unwrap();
    // 4 + 2 + 3 + (2 + 4) + 6 + 1 + 16 + (1 + 2) + 8 + 9 + (4 + 18) + (2 + 3)
    assert_eq!(bytes.len(), 85);
    assert_eq!(size(&f, "player", &v), Some(85));
}

#[test]
fn encoding_exact_bytes() {
    let f = schema("struct p {\n  n u8\n  xs [n]i8\n  ys []u8 array_size_type:u16 endian:big\n  t [4]cstring\n}\n");
    let v = rec(vec![
        Value::Unsigned(2),
        Value::List(vec![Value::Signed(-1), Value::Signed(5)]),
        Value::List(vec![Value::Unsigned(9)]),
        text("hi"),
    ]);
    let bytes = encode(&f, "p", &v).unwrap();
    assert_eq!(bytes, vec![2, 0xff, 5, 0, 1, 9, b'h', b'i', 0, 0]);
    assert_eq!(decode(&f, "p", &bytes).unwrap(), v);
}

#[test]
fn truncated_buffer_is_not_enough_data() {
    let f = schema(GAME);
    let bytes = encode(&f, "player", &player()).unwrap();
    let n = bytes.len();
    assert!(matches!(decode(&f, "player", &bytes[..n - 1]), Err(PError::NotEnoughData)));
    assert!(matches!(decode(&f, "player", &[]), Err(PError::NotEnoughData)));
}

#[test]
fn trailing_bytes_are_left() {
    let f = schema("struct p {\n  a u8\n}\n");
    let v = decode(&f, "p", &[7, 8, 9]).unwrap();
    assert_eq!(v, rec(vec![Value::Unsigned(7)]));
}

#[test]
fn encode_into_buffer() {
    let f = schema("struct p {\n  a u16\n}\n");
    let v = rec(vec![Value::Unsigned(0x0304)]);
    let mut buf = [0xaau8; 4];
    assert_eq!(encode_buf(&f, "p", &v, &mut buf), Ok(2));
    assert_eq!(buf, [0x04, 0x03, 0xaa, 0xaa]);
    let mut small = [0u8; 1];
    assert_eq!(encode_buf(&f, "p", &v, &mut small), Err(PError::BufTooSmall));
    assert_eq!(small, [0]);
}

#[test]
fn values_that_do_not_fit_are_refused() {
    let f = schema("struct p {\n  a u8\n}\n");
    assert_eq!(encode(&f, "p", &rec(vec![Value::Unsigned(256)])), Err(PError::InvalidValue));
    assert_eq!(encode(&f, "p", &rec(vec![Value::Signed(1)])), Err(PError::InvalidValue));
    assert_eq!(encode(&f, "p", &rec(vec![])), Err(PError::InvalidValue));
    assert_eq!(encode(&f, "q", &rec(vec![Value::Unsigned(1)])), Err(PError::InvalidValue));
    let f = schema("struct p {\n  n u8\n  xs [n]u8\n}\n");
    let v = rec(vec![Value::Unsigned(2), Value::List(vec![Value::Unsigned(1)])]);
    assert_eq!(encode(&f, "p", &v), Err(PError::InvalidValue));
    let f = schema("struct p {\n  xs []u8 array_size_type:u8\n}\n");
    let v = rec(vec![Value::List((0..256).map(|_| Value::Unsigned(0)).collect())]);
    assert_eq!(encode(&f, "p", &v), Err(PError::InvalidValue));
    let f = schema("struct p {\n  t [2]cstring\n}\n");
    assert_eq!(encode(&f, "p", &rec(vec![text("abc")])), Err(PError::InvalidValue));
}

#[test]
fn negative_counts_are_invalid_data() {
    let f = schema("struct p {\n  xs []u8\n}\n");
    assert_eq!(decode(&f, "p", &[0xff, 0xff, 0xff, 0xff]), Err(PError::InvalidData));
    let f = schema("struct p {\n  n i8\n  xs [n]u8\n}\n");
    assert_eq!(decode(&f, "p", &[0xff]), Err(PError::InvalidData));
    assert_eq!(decode(&f, "q", &[0xff]), Err(PError::InvalidData));
}

#[test]
fn nesting_is_bounded() {
    let f = schema("struct node {\n  kids []node\n}\n");
    let mut v = rec(vec![Value::List(vec![])]);
    for _ in 0..64 {
        v = rec(vec![Value::List(vec![v])]);
    }
    let bytes = encode(&f, "node", &v).unwrap();
    assert_eq!(decode(&f, "node", &bytes).unwrap(), v);
    let deeper = rec(vec![Value::List(vec![v])]);
    assert_eq!(encode(&f, "node", &deeper), Err(PError::TooDeep));
    let mut more = vec![1, 0, 0, 0];
    more.extend_from_slice(&bytes);
    assert_eq!(decode(&f, "node", &more), Err(PError::TooDeep));
}

#[test]
fn size_follows_the_value() {
    let f = schema("struct p {\n  s string\n  xs []u16\n}\n");
    let v = rec(vec![text("abc"), Value::List((0..3).map(|_| Value::Unsigned(1)).collect())]);
    assert_eq!(size(&f, "p", &v), Some(2 + 3 + 4 + 6));
    let w = rec(vec![text(""), Value::List(vec![])]);
    assert_eq!(size(&f, "p", &w), Some(6));
}

#[test]
fn float_fields_hold_bits() {
    let f = schema("struct p {\n  a f32 endian:big\n}\n");
    let v = rec(vec![Value::Unsigned(1.0f32.to_bits() as u64)]);
    assert_eq!(encode(&f, "p", &v).unwrap(), vec![0x3f, 0x80, 0, 0]);
}

#[test]
fn short_buffer_fails_before_reading() {
    let f = schema("struct p {\n  xs []u8\n  y u64\n}\n");
    assert_eq!(decode(&f, "p", &[0xff, 0xff, 0xff, 0xff]), Err(PError::NotEnoughData));
    let v = decode(&f, "p", &[0, 0, 0, 0, 1, 0, 0, 0, 0, 0, 0, 0]).unwrap();
    assert_eq!(v, rec(vec![Value::List(vec![]), Value::Unsigned(1)]));
}
