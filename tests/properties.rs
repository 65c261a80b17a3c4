use rencode::consts::{COLON, F32, F64, I16, I32, I64, I8, LIST, TERM};
use rencode::float::widen_f32_bits;
use rencode::value::{dict_insert, key_eq, key_less};
use rencode::{decode, decode_bool, encode, Decoder, DecoderError, Encoder, Token, Value};

fn enc(v: &Value) -> Vec<u8> {
    encode(v).unwrap()
}

fn s(text: &str) -> Value {
    Value::String(text.to_string())
}

fn dict(pairs: &[(&str, Value)]) -> Value {
    let mut d = Vec::new();
    for (k, v) in pairs {
        dict_insert(&mut d, k.to_string(), v.clone_value());
    }
    Value::Dict(d)
}

trait CloneValue {
    fn clone_value(&self) -> Value;
}

impl CloneValue for Value {
    fn clone_value(&self) -> Value {
        match self {
            Value::Null => Value::Null,
            Value::I64(n) => Value::I64(*n),
            Value::U64(n) => Value::U64(*n),
            Value::F64(b) => Value::F64(*b),
            Value::Bool(b) => Value::Bool(*b),
            Value::String(t) => Value::String(t.clone()),
            Value::List(items) => Value::List(items.iter().map(|x| x.clone_value()).collect()),
            Value::Dict(d) => Value::Dict(d.iter().map(|(k, v)| (k.clone(), v.clone_value())).collect()),
        }
    }
}

#[test]
fn round_trip_nested_value() {
    let v = Value::List(vec![
        Value::Null,
        Value::Bool(false),
        Value::I64(-1_000_000),
        Value::F64(1.5f64.to_bits()),
        s("hello"),
        dict(&[("b", Value::I64(2)), ("a", Value::List(vec![]))]),
        Value::List((0..70).map(Value::I64).collect()),
        s(&"x".repeat(100)),
    ]);
    let bytes = enc(&v);
    assert_eq!(decode(&bytes), Ok(v));
}

#[test]
fn round_trip_large_map_uses_open_form() {
    let pairs: Vec<(String, Value)> = (0..30).map(|i| (format!("k{:02}", i), Value::I64(i))).collect();
    let mut d = Vec::new();
    for (k, v) in pairs {
        dict_insert(&mut d, k, v);
    }
    let v = Value::Dict(d);
    let bytes = enc(&v);
    assert_eq!(bytes[0], 60);
    assert_eq!(*bytes.last().unwrap(), TERM);
    assert_eq!(decode(&bytes), Ok(v));
}

#[test]
fn integer_widths_are_narrowest() {
    assert_eq!(enc(&Value::I64(0)), &[0]);
    assert_eq!(enc(&Value::I64(43)), &[43]);
    assert_eq!(enc(&Value::I64(44)), &[I8, 44]);
    assert_eq!(enc(&Value::I64(-1)), &[70]);
    assert_eq!(enc(&Value::I64(-32)), &[101]);
    assert_eq!(enc(&Value::I64(-33)), &[I8, 223]);
    assert_eq!(enc(&Value::I64(127)), &[I8, 127]);
    assert_eq!(enc(&Value::I64(128)), &[I16, 0, 128]);
    assert_eq!(enc(&Value::I64(-128)), &[I8, 128]);
    assert_eq!(enc(&Value::I64(32767)), &[I16, 127, 255]);
    assert_eq!(enc(&Value::I64(32768)), &[I32, 0, 0, 128, 0]);
    assert_eq!(enc(&Value::I64(2147483648)), &[I64, 0, 0, 0, 0, 128, 0, 0, 0]);
    assert_eq!(enc(&Value::I64(i64::MIN)), &[I64, 128, 0, 0, 0, 0, 0, 0, 0]);
}

#[test]
fn unsigned_is_written_as_signed_bits() {
    assert_eq!(enc(&Value::U64(5)), &[5]);
    assert_eq!(enc(&Value::U64(u64::MAX)), &[70]);
    assert_eq!(decode(&enc(&Value::U64(300))), Ok(Value::I64(300)));
}

#[test]
fn string_length_boundary() {
    let s63 = "a".repeat(63);
    let b = enc(&s(&s63));
    assert_eq!(b[0], 191);
    assert_eq!(b.len(), 64);
    let s64 = "a".repeat(64);
    let b = enc(&s(&s64));
    assert_eq!(&b[..3], b"64:");
    assert_eq!(b.len(), 67);
    assert_eq!(decode(&b), Ok(s(&s64)));
    assert_eq!(enc(&s("")), &[128]);
}

#[test]
fn string_length_counts_bytes() {
    assert_eq!(enc(&s("é")), &[130, 0xc3, 0xa9]);
}

#[test]
fn fixed_and_open_lists() {
    let two = Value::List(vec![Value::I64(7), Value::I64(8)]);
    assert_eq!(enc(&two), &[194, 7, 8]);
    let eighty = Value::List((0..80).map(|_| Value::I64(1)).collect());
    let b = enc(&eighty);
    assert_eq!(b.len(), 82);
    assert_eq!(b[0], LIST);
    assert!(b[1..81].iter().all(|x| *x == 1));
    assert_eq!(b[81], TERM);
}

#[test]
fn nested_open_lists_keep_their_terminators() {
    // [[1], 2] with both lists open, followed by a trailing byte
    let bytes = [LIST, LIST, 1, TERM, 2, TERM, 5];
    let mut d = Decoder::new(&bytes);
    let v = d.decode_value().unwrap();
    assert_eq!(v, Value::List(vec![Value::List(vec![Value::I64(1)]), Value::I64(2)]));
    assert_eq!(d.decode_value(), Ok(Value::I64(5)));
}

#[test]
fn truncated_numbers_are_errors() {
    assert_eq!(decode(&[I8]), Err(DecoderError::UnexpectedEOF));
    assert_eq!(decode(&[I16, 1]), Err(DecoderError::UnexpectedEOF));
    assert_eq!(decode(&[I32, 1, 2, 3]), Err(DecoderError::UnexpectedEOF));
    assert_eq!(decode(&[I64, 1, 2, 3, 4, 5, 6, 7]), Err(DecoderError::UnexpectedEOF));
    assert_eq!(decode(&[F32, 0, 0]), Err(DecoderError::UnexpectedEOF));
    assert_eq!(decode(&[F64, 0, 0, 0]), Err(DecoderError::UnexpectedEOF));
    assert_eq!(decode(&[]), Err(DecoderError::UnexpectedEOF));
}

#[test]
fn string_as_bool_is_type_mismatch() {
    assert_eq!(decode_bool(&[131, b'a', b'b', b'c']), Err(DecoderError::InvalidType));
    assert_eq!(decode_bool(b"3:abc"), Err(DecoderError::InvalidType));
    assert_eq!(decode_bool(&[67]), Ok(true));
    assert_eq!(decode_bool(&[68]), Ok(false));
}

#[test]
fn map_keys_sorted_whatever_the_insertion_order() {
    let a = dict(&[("b", Value::I64(1)), ("a", Value::I64(2)), ("c", Value::I64(3))]);
    let b = dict(&[("c", Value::I64(3)), ("b", Value::I64(1)), ("a", Value::I64(2))]);
    assert_eq!(enc(&a), enc(&b));
    assert_eq!(enc(&a), &[105, 129, b'a', 2, 129, b'b', 1, 129, b'c', 3]);
}

#[test]
fn decoded_map_is_sorted_and_later_key_wins() {
    let bytes = [104, 129, b'z', 1, 129, b'a', 2];
    let expected = dict(&[("a", Value::I64(2)), ("z", Value::I64(1))]);
    assert_eq!(decode(&bytes), Ok(expected.clone_value()));
    assert_eq!(enc(&expected), &[104, 129, b'a', 2, 129, b'z', 1]);
    let dup = [104, 129, b'k', 1, 129, b'k', 2];
    assert_eq!(decode(&dup), Ok(dict(&[("k", Value::I64(2))])));
}

#[test]
fn map_with_non_string_key_is_type_mismatch() {
    assert_eq!(decode(&[103, 1, 2]), Err(DecoderError::InvalidType));
}

#[test]
fn error_kinds() {
    assert_eq!(decode(&[45]), Err(DecoderError::Syntax));
    assert_eq!(decode(&[61]), Err(DecoderError::Syntax));
    assert_eq!(decode(&[TERM]), Err(DecoderError::Syntax));
    assert_eq!(decode(&[193, TERM]), Err(DecoderError::Syntax));
    assert_eq!(decode(&[130, 0xff, 0xfe]), Err(DecoderError::FromUtf8Error));
    assert_eq!(decode(b"9x:abc"), Err(DecoderError::ParseIntError));
    assert_eq!(decode(b"99999999999999999999999:a"), Err(DecoderError::ParseIntError));
    assert_eq!(decode(b"12"), Err(DecoderError::UnexpectedEOF));
    assert_eq!(decode(b"5:ab"), Err(DecoderError::UnexpectedEOF));
    assert_eq!(decode(&[LIST, 1]), Err(DecoderError::UnexpectedEOF));
}

#[test]
fn single_floats_widen_to_doubles() {
    for x in [0.0f32, -0.0, 1.5, -3.25, f32::MAX, f32::MIN_POSITIVE, 1e-45, 3e-40, f32::INFINITY] {
        assert_eq!(widen_f32_bits(x.to_bits()), (x as f64).to_bits());
    }
    let mut bytes = vec![F32];
    bytes.extend_from_slice(&2.5f32.to_be_bytes());
    assert_eq!(decode(&bytes), Ok(Value::F64(2.5f64.to_bits())));
}

#[test]
fn doubles_are_big_endian() {
    let b = enc(&Value::F64(1.0f64.to_bits()));
    assert_eq!(b, &[F64, 0x3f, 0xf0, 0, 0, 0, 0, 0, 0]);
    let mut e = Encoder::new();
    e.visit_f32(1.0f32.to_bits());
    assert_eq!(e.writer, &[F32, 0x3f, 0x80, 0, 0]);
}

#[test]
fn tokens_and_lookahead() {
    let mut d = Decoder::new(&[I16, 1, 2, 196]);
    assert_eq!(d.peek(), Ok(I16));
    assert_eq!(d.peek(), Ok(I16));
    assert!(matches!(d.visit(), Ok(Token::Int(258))));
    assert!(matches!(d.visit(), Ok(Token::FixedList(4))));
    assert_eq!(d.next(), Err(DecoderError::UnexpectedEOF));
    let mut d = Decoder::new(b"ab:cd");
    assert_eq!(d.take_while(|b| b != COLON), Ok(b"ab".to_vec()));
    assert_eq!(d.take(2), Ok(b"cd".to_vec()));
    assert_eq!(d.take(1), Err(DecoderError::UnexpectedEOF));
}

#[test]
fn fixed_visitor_counts_elements() {
    let mut d = Decoder::new(&[194, 1, 2, 3]);
    let mut v = d.build_fixed_visitor(2);
    assert_eq!(v.visit(&mut d), Ok(Some(Value::I64(1))));
    assert_eq!(v.visit(&mut d), Ok(Some(Value::I64(2))));
    assert_eq!(v.visit(&mut d), Ok(None));
    assert_eq!(d.decode_value(), Ok(Value::I64(3)));
}

#[test]
fn key_comparison() {
    assert!(key_less("a", "b"));
    assert!(key_less("a", "ab"));
    assert!(!key_less("b", "a"));
    assert!(!key_less("a", "a"));
    assert!(key_eq("é", "é"));
    assert!(!key_eq("a", "b"));
}
