use leech::bencode::decode::{decode, value_span};
use leech::bencode::{encode, Value};
use leech::error::{ApplicationError, Fault};
use std::collections::HashMap;

fn bytes(s: &str) -> Value {
    Value::Bytes(s.as_bytes().to_vec())
}

fn entry(k: &str, v: Value) -> (Vec<u8>, Value) {
    (k.as_bytes().to_vec(), v)
}

fn refused(input: &[u8]) {
    assert_eq!(
        decode(input),
        Err(ApplicationError::ParserError(Fault::MalformedBencode)),
        "input {:?}",
        String::from_utf8_lossy(input)
    );
}

fn outside(v: &Value) -> serde_bencode::value::Value {
    match v {
        Value::Int(n) => serde_bencode::value::Value::Int(*n),
        Value::Bytes(b) => serde_bencode::value::Value::Bytes(b.clone()),
        Value::List(items) => serde_bencode::value::Value::List(items.iter().map(outside).collect()),
        Value::Dict(entries) => {
            let mut map = HashMap::new();
            for (k, item) in entries {
                map.insert(k.clone(), outside(item));
            }
            serde_bencode::value::Value::Dict(map)
        }
    }
}

fn sample() -> Value {
    Value::Dict(vec![
        entry("a", Value::Int(-12)),
        entry("b", Value::List(vec![Value::Int(0), bytes(""), bytes("xyz"), Value::List(vec![])])),
        entry("c", Value::Dict(vec![entry("", Value::Int(1)), entry("k", Value::Dict(vec![]))])),
    ])
}

#[test]
fn integers_are_decoded() {
    assert_eq!(decode(b"i42e"), Ok(Value::Int(42)));
    assert_eq!(decode(b"i-7e"), Ok(Value::Int(-7)));
    assert_eq!(decode(b"i0e"), Ok(Value::Int(0)));
    assert_eq!(decode(b"i9223372036854775807e"), Ok(Value::Int(i64::MAX)));
    assert_eq!(decode(b"i-9223372036854775808e"), Ok(Value::Int(i64::MIN)));
}

#[test]
fn byte_strings_are_decoded() {
    assert_eq!(decode(b"4:spam"), Ok(bytes("spam")));
    assert_eq!(decode(b"0:"), Ok(bytes("")));
    assert_eq!(decode(b"10:0123456789"), Ok(bytes("0123456789")));
    assert_eq!(decode(b"3:\x00\xff\x7f"), Ok(Value::Bytes(vec![0, 255, 127])));
}

#[test]
fn lists_and_dictionaries_are_decoded() {
    assert_eq!(decode(b"le"), Ok(Value::List(vec![])));
    assert_eq!(decode(b"de"), Ok(Value::Dict(vec![])));
    assert_eq!(
        decode(b"l4:spami42ee"),
        Ok(Value::List(vec![bytes("spam"), Value::Int(42)]))
    );
    assert_eq!(
        decode(b"d3:cow3:moo4:spam4:eggse"),
        Ok(Value::Dict(vec![entry("cow", bytes("moo")), entry("spam", bytes("eggs"))]))
    );
    assert_eq!(
        decode(b"d1:ai-12e1:bli0e0:3:xyzlee1:cd0:i1e1:kdeee"),
        Ok(sample())
    );
}

#[test]
fn truncated_input_is_refused() {
    refused(b"");
    refused(b"i42");
    refused(b"i");
    refused(b"5:spam");
    refused(b"4");
    refused(b"4:");
    refused(b"l");
    refused(b"l4:spam");
    refused(b"d");
    refused(b"d3:cow");
    refused(b"d3:cow3:moo");
}

#[test]
fn numbers_that_are_not_canonical_are_refused() {
    refused(b"i-0e");
    refused(b"i03e");
    refused(b"i00e");
    refused(b"i-01e");
    refused(b"ie");
    refused(b"i-e");
    refused(b"i+1e");
    refused(b"i1 e");
    refused(b"04:spam");
    refused(b"00:");
    refused(b"i9223372036854775808e");
    refused(b"i-9223372036854775809e");
    refused(b"i99999999999999999999999999e");
    refused(b"99999999999999999999999999:x");
}

#[test]
fn lengths_that_are_no_digits_are_refused() {
    refused(b"x:abc");
    refused(b"-1:a");
    refused(b":abc");
    refused(b"4spam");
    refused(b"e");
    refused(b"4;spam");
}

#[test]
fn keys_out_of_order_or_twice_are_refused() {
    refused(b"d3:cow3:moo3:bee1:xe");
    refused(b"d1:bi1e1:ai2ee");
    refused(b"d1:ai1e1:ai2ee");
    refused(b"d2:abi1e1:ai2ee");
    refused(b"di1ei2ee");
    assert_eq!(
        decode(b"d1:ai1e2:abi2ee"),
        Ok(Value::Dict(vec![entry("a", Value::Int(1)), entry("ab", Value::Int(2))]))
    );
}

#[test]
fn bytes_after_the_value_are_refused() {
    refused(b"i1ei2e");
    refused(b"4:spamx");
    refused(b"lee");
    refused(b"dee");
    refused(b"i1e ");
}

#[test]
fn values_are_encoded() {
    assert_eq!(encode(&Value::Int(42)), b"i42e".to_vec());
    assert_eq!(encode(&Value::Int(-7)), b"i-7e".to_vec());
    assert_eq!(encode(&Value::Int(0)), b"i0e".to_vec());
    assert_eq!(encode(&Value::Int(i64::MIN)), b"i-9223372036854775808e".to_vec());
    assert_eq!(encode(&Value::Int(i64::MAX)), b"i9223372036854775807e".to_vec());
    assert_eq!(encode(&bytes("spam")), b"4:spam".to_vec());
    assert_eq!(encode(&bytes("")), b"0:".to_vec());
    assert_eq!(encode(&Value::List(vec![])), b"le".to_vec());
    assert_eq!(encode(&Value::Dict(vec![])), b"de".to_vec());
    assert_eq!(
        encode(&sample()),
        b"d1:ai-12e1:bli0e0:3:xyzlee1:cd0:i1e1:kdeee".to_vec()
    );
}

#[test]
fn decoding_undoes_encoding() {
    let values = vec![
        Value::Int(1234567890123),
        Value::Int(-1),
        bytes("hello world"),
        Value::Bytes((0..=255).collect()),
        Value::List(vec![Value::List(vec![Value::List(vec![])])]),
        sample(),
    ];
    for v in values {
        let encoded = encode(&v);
        assert_eq!(decode(&encoded), Ok(v));
    }
}

#[test]
fn encoding_undoes_decoding() {
    let inputs: Vec<&[u8]> = vec![
        b"i0e",
        b"i-99e",
        b"0:",
        b"11:hello world",
        b"llleee",
        b"d1:ad1:bd1:cdeeee",
        b"d8:announce18:http://tracker/ann4:infod6:lengthi5e4:name1:x12:piece lengthi5e6:pieces20:aaaaaaaaaaaaaaaaaaaaee",
    ];
    for input in inputs {
        let v = decode(input).unwrap();
        assert_eq!(encode(&v), input.to_vec());
    }
}

#[test]
fn the_encoder_agrees_with_serde_bencode() {
    let values = vec![Value::Int(-5), bytes("spam"), sample()];
    for v in values {
        let theirs = serde_bencode::to_bytes(&outside(&v)).unwrap();
        assert_eq!(encode(&v), theirs);
        let back: serde_bencode::value::Value = serde_bencode::from_bytes(&encode(&v)).unwrap();
        assert_eq!(back, outside(&v));
    }
}

#[test]
fn values_are_found_by_key() {
    let v = sample();
    assert_eq!(v.get(b"a"), Some(&Value::Int(-12)));
    assert_eq!(v.get(b"a").unwrap().as_int(), Some(-12));
    assert_eq!(v.get(b"a").unwrap().as_bytes(), None);
    assert_eq!(v.get(b"b").unwrap().as_list().unwrap().len(), 4);
    assert_eq!(v.get(b"c").unwrap().get(b""), Some(&Value::Int(1)));
    assert_eq!(v.get(b"d"), None);
    assert_eq!(v.get(b""), None);
    assert_eq!(Value::Int(1).get(b"a"), None);
    assert_eq!(bytes("xyz").as_bytes(), Some(&b"xyz".to_vec()));
    assert_eq!(bytes("xyz").as_int(), None);
    assert_eq!(Value::Int(3).as_list(), None);
    assert_eq!(sample().take(b"a"), Some(Value::Int(-12)));
    assert_eq!(sample().take(b"zz"), None);
    assert_eq!(Value::List(vec![]).take(b"a"), None);
}

#[test]
fn the_span_of_a_value_is_its_bytes_in_the_input() {
    let input = b"d8:announce3:url4:infod4:name1:ae1:zi7ee";
    let (start, end) = value_span(input, b"info").unwrap();
    assert_eq!(&input[start..end], b"d4:name1:ae");
    assert_eq!(input[start], b'd');
    assert_eq!(input[end - 1], b'e');
    let (url_from, url_to) = value_span(input, b"announce").unwrap();
    assert_eq!(&input[url_from..url_to], b"3:url");
    let (z_from, z_to) = value_span(input, b"z").unwrap();
    assert_eq!(&input[z_from..z_to], b"i7e");
    assert_eq!(value_span(input, b"name"), None);
    assert_eq!(value_span(b"i1e", b"info"), None);
    assert_eq!(value_span(b"d4:infoi1e", b"info"), None);
    assert_eq!(value_span(b"d4:infoi1e1:ai2ee", b"info"), None);
}
