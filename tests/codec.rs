use rencode::consts::{DICT, F32, I16, I8, LIST, TERM};
use rencode::value::dict_insert;
use rencode::{decode, decode_bool, encode, Decoder, DecoderError, Encoder, Token, Value};
use std::collections::HashMap;

fn enc(v: &Value) -> Vec<u8> {
    encode(v).unwrap()
}

fn s(text: &str) -> Value {
    Value::String(text.to_string())
}

fn decode_int_map(bytes: &[u8]) -> HashMap<i64, i64> {
    let mut d = Decoder::new(bytes);
    let mut map = HashMap::new();
    match d.visit().unwrap() {
        Token::FixedMap(n) => {
            for _ in 0..n {
                let k = d.decode_value().unwrap();
                let v = d.decode_value().unwrap();
                if let (Value::I64(k), Value::I64(v)) = (k, v) {
                    map.insert(k, v);
                }
            }
        }
        Token::OpenMap => loop {
            match d.decode_value() {
                Ok(Value::I64(k)) => {
                    if let Value::I64(v) = d.decode_value().unwrap() {
                        map.insert(k, v);
                    }
                }
                Err(DecoderError::EndOfStruct) => {
                    d.end().unwrap();
                    break;
                }
                other => panic!("unexpected {:?}", other),
            }
        },
        other => panic!("unexpected {:?}", other),
    }
    map
}

#[test]
fn test_encode() {
    // integers
    assert_eq!(enc(&Value::I64(5)), &[5]);
    assert_eq!(enc(&Value::I64(-5)), &[74]);
    assert_eq!(enc(&Value::I64(100)), &[62, 100]);
    assert_eq!(enc(&Value::I64(-100)), &[62, 156]);
    assert_eq!(enc(&Value::I64(200)), &[63, 0, 200]);
    assert_eq!(enc(&Value::I64(-200)), &[63, 255, 56]);
    assert_eq!(enc(&Value::I64(100_000)), &[64, 0, 1, 134, 160]);
    assert_eq!(enc(&Value::I64(-100_000)), &[64, 255, 254, 121, 96]);
    assert_eq!(enc(&Value::I64(400_000_000_000)), &[65, 0, 0, 0, 93, 33, 219, 160, 0]);
    assert_eq!(enc(&Value::I64(-400_000_000_000)), &[65, 255, 255, 255, 162, 222, 36, 96, 0]);
    // strings
    assert_eq!(enc(&s("abc")), &[131, 97, 98, 99]);
    assert_eq!(
        enc(&s("ghkdgdfjgdfjgfdgjhkdfgjhdfgfdjgdfjkgdfjhghfdgdfhkgdfhkgfdhgdfhgdfhdfghdfghkdfhdk")),
        "80:ghkdgdfjgdfjgfdgjhkdfgjhdfgfdjgdfjkgdfjhghfdgdfhkgdfhkgfdhgdfhgdfhdfghdfghkdfhdk".as_bytes()
    );
    // list
    {
        assert_eq!(enc(&Value::List(vec![Value::I64(1), Value::I64(2)])), &[194, 1, 2]);
        let list = Value::List((0..80).map(|_| Value::I64(1)).collect());
        let data = enc(&list);
        assert_eq!(data.len(), 82);
        assert_eq!(data[0], LIST);
        assert_eq!(data[81], TERM);
    }
    // map
    {
        let mut e = Encoder::new();
        let open = e.visit_map(Some(1));
        e.visit_i64(1);
        e.visit_str("a");
        e.end(open);
        assert_eq!(e.writer, &[103, 1, 129, 97]);

        let mut e = Encoder::new();
        let open = e.visit_map(Some(80));
        for i in 0..80 {
            e.visit_i64(i);
            e.visit_i64(i);
        }
        e.end(open);
        let data = e.writer;
        assert_eq!(data[0], DICT);
        assert_eq!(data.last(), Some(TERM).as_ref());
    }
}

#[test]
fn test_decode() {
    assert_eq!(decode(&[67]), Ok(Value::Bool(true)));
}

#[test]
fn test_decode_string() {
    // embed
    assert_eq!(decode(&[131, b'a', b'b', b'c']), Ok(s("abc")));
    // not embed
    assert_eq!(decode("8:rustlang".as_bytes()), Ok(s("rustlang")));
}

#[test]
fn test_decode_int() {
    // embed pos
    assert_eq!(decode(&[43u8]), Ok(Value::I64(43)));
    assert_eq!(decode(&[I8, 44]), Ok(Value::I64(44)));
    // embed neg
    assert_eq!(decode(&[101u8]), Ok(Value::I64(-32)));
    assert_eq!(decode(&[I8, 223]), Ok(Value::I64(-33)));
    // i8
    assert_eq!(decode(&[I8, 100]), Ok(Value::I64(100)));
    assert_eq!(decode(&[I8, 156]), Ok(Value::I64(-100)));
}

#[test]
fn test_decode_seq() {
    let expected = Value::List(vec![Value::I64(1), Value::I64(2), Value::I64(3)]);
    // embed
    assert_eq!(decode(&[195u8, 1, 2, 3]), Ok(Value::List(vec![Value::I64(1), Value::I64(2), Value::I64(3)])));
    // normal
    assert_eq!(decode(&[LIST, I8, 1, I8, 2, I8, 3, TERM]), Ok(expected));
}

#[test]
fn test_decode_map() {
    let mut b = HashMap::new();
    b.insert(1, 2);
    b.insert(3, 4);
    // embed
    assert_eq!(decode_int_map(&[104u8, 1, 2, 3, 4]), b);
    // normal
    assert_eq!(decode_int_map(&[DICT, I8, 1, I8, 2, I8, 3, I8, 4, TERM]), b);
}
