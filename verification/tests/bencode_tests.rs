use bittorrent::codec::{bdecode, ParseError};
use bittorrent::encode::bencode;
use bittorrent::value::Value;

fn decode_all(input: &[u8]) -> Value {
    let buf = input.to_vec();
    let (v, used) = bdecode(&buf).expect("decode failed");
    assert_eq!(used, buf.len(), "unconsumed trailing bytes");
    v
}

#[test]
fn bdecode_integer_byte() {
    assert_eq!(decode_all(b"i-5222e").render(), "-5222");
}

#[test]
fn bdecode_string_byte() {
    assert_eq!(decode_all(b"5:hello").render(), "\"hello\"");
}

#[test]
fn bdecode_list_byte() {
    assert_eq!(
        decode_all(b"l5:hello3:wow7:abcdef7i77el5:helloi52eee").render(),
        "[\"hello\",\"wow\",\"abcdef7\",77,[\"hello\",52]]"
    );
}

#[test]
fn bdecode_dictionary_byte() {
    assert_eq!(
        decode_all(b"d3:foo3:bar5:helloi52ee").render(),
        "{\"foo\":\"bar\",\"hello\":52}"
    );
}

#[test]
fn bdecode_string() {
    assert_eq!(decode_all("i52e".as_bytes()).render(), "52");
}

#[test]
fn bdecode_integer() {
    assert_eq!(decode_all("5:hello".as_bytes()).render(), "\"hello\"");
}

#[test]
fn bdecode_list() {
    assert_eq!(
        decode_all("l5:hello3:wow7:abcdef7i77el5:helloi52eee".as_bytes()).render(),
        "[\"hello\",\"wow\",\"abcdef7\",77,[\"hello\",52]]"
    );
}

#[test]
fn bdecode_dictionary() {
    assert_eq!(
        decode_all("d3:foo3:bar5:helloi52ee".as_bytes()).render(),
        "{\"foo\":\"bar\",\"hello\":52}"
    );
}

#[test]
fn decode_integer_value() {
    let (v, _) = bdecode(&b"i52e".to_vec()).unwrap();
    assert!(matches!(v, Value::Integer(52)));
    let (v, _) = bdecode(&b"i-5222e".to_vec()).unwrap();
    assert!(matches!(v, Value::Integer(-5222)));
}

#[test]
fn decode_byte_string_value() {
    let (v, _) = bdecode(&b"5:hello".to_vec()).unwrap();
    match v {
        Value::Bytes(b) => assert_eq!(b, b"hello".to_vec()),
        _ => panic!("not a byte string"),
    }
}

#[test]
fn round_trip_plain_value() {
    let v = Value::List(vec![
        Value::Bytes(b"hello".to_vec()),
        Value::Integer(-42),
        Value::Dict(vec![
            (b"foo".to_vec(), Value::Bytes(b"bar".to_vec())),
            (b"n".to_vec(), Value::Integer(0)),
        ]),
    ]);
    let encoded = bencode(&v);
    assert_eq!(encoded, b"l5:helloi-42ed3:foo3:bar1:ni0eee".to_vec());
    let (back, used) = bdecode(&encoded).unwrap();
    assert_eq!(used, encoded.len());
    assert_eq!(bencode(&back), encoded);
    assert_eq!(back.render(), v.render());
}

#[test]
fn decode_reports_trailing_bytes() {
    let buf = b"i52extra".to_vec();
    let (v, used) = bdecode(&buf).unwrap();
    assert!(matches!(v, Value::Integer(52)));
    assert_eq!(used, 4);
}

#[test]
fn decode_empty_input() {
    assert!(matches!(bdecode(&Vec::new()), Err(ParseError::EmptyInput)));
}

#[test]
fn decode_unrecognized_tag() {
    assert!(matches!(bdecode(&b"x".to_vec()), Err(ParseError::UnrecognizedTag)));
}

#[test]
fn decode_malformed_integer() {
    assert!(matches!(bdecode(&b"i52".to_vec()), Err(ParseError::MalformedInteger)));
    assert!(matches!(bdecode(&b"iabce".to_vec()), Err(ParseError::MalformedInteger)));
    assert!(matches!(bdecode(&b"i-e".to_vec()), Err(ParseError::MalformedInteger)));
    assert!(matches!(bdecode(&b"i99999999999999999999e".to_vec()), Err(ParseError::MalformedInteger)));
}

#[test]
fn decode_truncated_string() {
    assert!(matches!(bdecode(&b"5:abc".to_vec()), Err(ParseError::TruncatedString)));
}

#[test]
fn decode_unterminated_list() {
    assert!(matches!(bdecode(&b"l5:hello".to_vec()), Err(ParseError::UnterminatedList)));
}

#[test]
fn decode_missing_map_value() {
    assert!(matches!(bdecode(&b"d3:fooe".to_vec()), Err(ParseError::UnterminatedMap)));
    assert!(matches!(bdecode(&b"d3:foo".to_vec()), Err(ParseError::UnterminatedMap)));
}

#[test]
fn decode_non_string_key() {
    assert!(matches!(bdecode(&b"di1ei2ee".to_vec()), Err(ParseError::NonStringKey)));
}

#[test]
fn decode_info_key_records_digest() {
    let buf = b"d4:infod6:lengthi5eee".to_vec();
    let (v, used) = bdecode(&buf).unwrap();
    assert_eq!(used, buf.len());
    let entries = match v {
        Value::Dict(es) => es,
        _ => panic!("not a map"),
    };
    assert_eq!(entries.len(), 2);
    assert_eq!(entries[0].0, b"info hash".to_vec());
    match &entries[0].1 {
        Value::Bytes(h) => {
            assert_eq!(h, &b"ff27ad3e1e1c42b3e45645120ac37c72113515fd".to_vec())
        }
        _ => panic!("info hash is not text"),
    }
    assert_eq!(entries[1].0, b"info".to_vec());
}

#[test]
fn decode_pieces_key_stores_hex() {
    let buf = b"d6:pieces3:ABCe".to_vec();
    let (v, _) = bdecode(&buf).unwrap();
    assert_eq!(v.render(), "{\"pieces\":\"414243\"}");
}

#[test]
fn decode_peers_key_expands_compact_list() {
    let mut buf = b"d5:peers6:".to_vec();
    buf.extend_from_slice(&[127, 0, 0, 1, 0x1f, 0x90]);
    buf.extend_from_slice(b"e");
    let (v, _) = bdecode(&buf).unwrap();
    assert_eq!(v.render(), "{\"peers\":[{\"ip\":\"127.0.0.1\",\"port\":8080}]}");
}

#[test]
fn decode_peers_key_rejects_ragged_blob() {
    let mut buf = b"d5:peers4:".to_vec();
    buf.extend_from_slice(&[127, 0, 0, 1]);
    buf.extend_from_slice(b"e");
    assert!(matches!(bdecode(&buf), Err(ParseError::TruncatedString)));
}

#[test]
fn render_escapes_binary_bytes() {
    let v = Value::Bytes(vec![0x00, 0x22, 0x5c, 0x7f, 0x41]);
    assert_eq!(v.render(), "\"\\u0000\\\"\\\\\\u007fA\"");
}

#[test]
fn decode_integer_extremes() {
    let (v, _) = bdecode(&b"i-9223372036854775808e".to_vec()).unwrap();
    assert!(matches!(v, Value::Integer(i64::MIN)));
    let (v, _) = bdecode(&b"i9223372036854775807e".to_vec()).unwrap();
    assert!(matches!(v, Value::Integer(i64::MAX)));
    assert!(matches!(
        bdecode(&b"i9223372036854775808e".to_vec()),
        Err(ParseError::MalformedInteger)
    ));
    assert!(matches!(
        bdecode(&b"i-9223372036854775809e".to_vec()),
        Err(ParseError::MalformedInteger)
    ));
}

#[test]
fn encode_integer_extremes() {
    assert_eq!(
        bencode(&Value::Integer(i64::MIN)),
        b"i-9223372036854775808e".to_vec()
    );
    assert_eq!(bencode(&Value::Integer(0)), b"i0e".to_vec());
    let encoded = bencode(&Value::Integer(i64::MIN));
    let (back, _) = bdecode(&encoded).unwrap();
    assert!(matches!(back, Value::Integer(i64::MIN)));
}
