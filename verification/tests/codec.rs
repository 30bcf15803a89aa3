//! Codec tests: wire-exact encodings, decodings, round trips, prefixes,
//! trailing bytes, and the failure kinds.

use simple_redis::resp::array::RespArray;
use simple_redis::resp::bulkstring::RespBulkString;
use simple_redis::resp::double::RespDouble;
use simple_redis::resp::frame::{DecodeErr, RespDecode, RespEncode, RespFrame};
use simple_redis::resp::map::RespMap;
use simple_redis::resp::null::RespNull;
use simple_redis::resp::set::RespSet;
use simple_redis::resp::simple_error::RespSimpleError;
use simple_redis::resp::simple_string::RespSimpleString;
use simple_redis::resp::split_r_n;

fn bulk(s: &[u8]) -> RespFrame {
    RespFrame::BulkString(RespBulkString::new(s))
}

fn simple(s: &[u8]) -> RespFrame {
    RespFrame::SimpleString(RespSimpleString::new(s))
}

#[test]
fn test_simple_string_encode() {
    let frame: RespFrame = RespFrame::SimpleString(RespSimpleString::new(b"OK"));
    assert_eq!(frame.encode(), b"+OK\r\n");
}

#[test]
fn test_simple_string_decode() {
    let decoded = RespSimpleString::decode(b"+OK\r\n").unwrap();
    assert_eq!(decoded.0, Some(RespSimpleString::new(b"OK")));

    let decoded = RespSimpleString::decode(b"+OK\r");
    assert_eq!(decoded.unwrap_err(), DecodeErr::InComplete);
}

#[test]
fn test_error_encode() {
    let frame: RespFrame = RespFrame::Error(RespSimpleError::new(b"Error message"));
    assert_eq!(frame.encode(), b"-Error message\r\n");
}

#[test]
fn test_error_decode() {
    let decoded = RespSimpleError::decode(b"-Error message\r\n").unwrap();
    assert_eq!(decoded.0, Some(RespSimpleError::new(b"Error message")));
}

#[test]
fn test_integer_encode() {
    let frame: RespFrame = RespFrame::Integer(123);
    assert_eq!(frame.encode(), b":+123\r\n");

    let frame: RespFrame = RespFrame::Integer(-123);
    assert_eq!(frame.encode(), b":-123\r\n");
}

#[test]
fn test_integer_decode() {
    let decoded = i64::decode(b":+123\r\n").unwrap();
    assert_eq!(decoded.0, Some(123));

    let decoded = i64::decode(b":123\r\n").unwrap();
    assert_eq!(decoded.0, Some(123));

    let decoded = i64::decode(b":-123\r\n").unwrap();
    assert_eq!(decoded.0, Some(-123));
}

#[test]
fn test_bulkstring_encode() {
    let frame: RespFrame = bulk(b"hello");
    assert_eq!(frame.encode(), b"$5\r\nhello\r\n");
}

#[test]
fn test_bulkstring_decode() {
    let buf = b"$5\r\nhello\r\n";
    let decoded = RespBulkString::decode(buf).unwrap();
    assert_eq!(decoded.0, Some(RespBulkString::new(b"hello")));
}

#[test]
fn test_array_encode() {
    let frame: RespFrame = RespFrame::Array(RespArray::new(vec![
        bulk(b"set"),
        bulk(b"hello"),
        simple(b"world"),
    ]));
    assert_eq!(frame.encode(), b"*3\r\n$3\r\nset\r\n$5\r\nhello\r\n+world\r\n");
}

#[test]
fn test_array_decode() {
    let encoded = b"*3\r\n$3\r\nset\r\n$5\r\nhello\r\n+world\r\n";
    let decoded = RespArray::decode(encoded).unwrap();
    assert_eq!(encoded.len(), decoded.1);
    assert!(decoded.0.is_some());

    let frame = RespArray::new(vec![bulk(b"set"), bulk(b"hello"), simple(b"world")]);
    assert_eq!(decoded.0.unwrap(), frame);
}

#[test]
fn test_boolean_encode() {
    let frame: RespFrame = RespFrame::Boolean(true);
    assert_eq!(frame.encode(), b"#t\r\n");

    let frame: RespFrame = RespFrame::Boolean(false);
    assert_eq!(frame.encode(), b"#f\r\n");
}

#[test]
fn test_boolean_decode() {
    let decoded = bool::decode(b"#t\r\n").unwrap();
    assert_eq!(decoded.0, Some(true));

    let decoded = bool::decode(b"#f\r\n").unwrap();
    assert_eq!(decoded.0, Some(false));
}

#[test]
fn test_double_encode() {
    let frame: RespFrame = RespFrame::Double(RespDouble::from_text(b"+123.456").unwrap());
    assert_eq!(frame.encode(), b",+123.456\r\n");

    let frame: RespFrame = RespFrame::Double(RespDouble::from_text(b"-123.456").unwrap());
    assert_eq!(frame.encode(), b",-123.456\r\n");

    let frame: RespFrame = RespFrame::Double(RespDouble::from_text(b"+1.23456e8").unwrap());
    assert_eq!(frame.encode(), b",+1.23456e8\r\n");

    let frame: RespFrame = RespFrame::Double(RespDouble::from_text(b"-1.23456e-9").unwrap());
    assert_eq!(frame.encode(), b",-1.23456e-9\r\n");
}

#[test]
fn test_double_decode() {
    let decoded = RespDouble::decode(b",+123.456\r\n").unwrap();
    assert_eq!(decoded.0, Some(RespDouble::from_text(b"+123.456").unwrap()));

    let decoded = RespDouble::decode(b",-123.456\r\n").unwrap();
    assert_eq!(decoded.0, Some(RespDouble::from_text(b"-123.456").unwrap()));

    let decoded = RespDouble::decode(b",+1.23456e8\r\n").unwrap();
    assert_eq!(decoded.0, Some(RespDouble::from_text(b"+1.23456e8").unwrap()));

    let decoded = RespDouble::decode(b",-1.23456e-9\r\n").unwrap();
    assert_eq!(decoded.0, Some(RespDouble::from_text(b"-1.23456e-9").unwrap()));
}

#[test]
fn test_double_rejects_nan() {
    assert!(RespDouble::from_text(b"nan").is_none());
    assert_eq!(RespDouble::decode(b",nan\r\n").unwrap_err(), DecodeErr::ParseFloatError);
}

#[test]
fn test_map_encode() {
    let mut map = RespMap::new();
    map.insert(simple(b"hello"), simple(b"world"));
    map.insert(bulk(b"foo"), simple(b"bar"));
    let frame: RespFrame = RespFrame::MapFrame(map);
    assert_eq!(frame.encode(), b"%2\r\n+hello\r\n+world\r\n$3\r\nfoo\r\n+bar\r\n");
}

#[test]
fn test_map_decode() {
    let mut map = RespMap::new();
    map.insert(simple(b"hello"), simple(b"world"));
    map.insert(bulk(b"foo"), simple(b"bar"));
    let frame: RespFrame = RespFrame::MapFrame(map);

    let encoded = b"%2\r\n+hello\r\n+world\r\n$3\r\nfoo\r\n+bar\r\n";
    let decoded = RespFrame::decode(encoded).unwrap();
    assert_eq!(encoded.len(), decoded.1);
    assert!(decoded.0.is_some());
    assert_eq!(decoded.0.unwrap(), frame);
}

#[test]
fn test_set_encode() {
    let mut set = RespSet::new();
    set.insert(bulk(b"hello"));
    set.insert(simple(b"world"));
    set.insert(RespFrame::Array(RespArray::new(vec![simple(b"foo")])));
    let frame: RespFrame = RespFrame::SetFrame(set);
    assert_eq!(frame.encode(), b"~3\r\n+world\r\n$5\r\nhello\r\n*1\r\n+foo\r\n");
}

#[test]
fn test_set_decode() {
    let mut set = RespSet::new();
    set.insert(bulk(b"hello"));
    set.insert(simple(b"world"));
    set.insert(RespFrame::Array(RespArray::new(vec![simple(b"foo")])));

    let encoded = b"~3\r\n+world\r\n$5\r\nhello\r\n*1\r\n+foo\r\n";
    let decoded = RespSet::decode(encoded).unwrap();
    assert_eq!(encoded.len(), decoded.1);
    assert!(decoded.0.is_some());
    assert_eq!(decoded.0.unwrap(), set);
}

#[test]
fn test_integer_zero_unsigned() {
    let frame: RespFrame = RespFrame::Integer(0);
    assert_eq!(frame.encode(), b":0\r\n");
    let decoded = i64::decode(b":0\r\n").unwrap();
    assert_eq!(decoded.0, Some(0));
}

#[test]
fn test_integer_extremes_round_trip() {
    for v in [i64::MIN, i64::MIN + 1, -1, 0, 1, i64::MAX - 1, i64::MAX] {
        let enc = RespFrame::Integer(v).encode();
        let decoded = i64::decode(enc.as_slice()).unwrap();
        assert_eq!(decoded.0, Some(v));
        assert_eq!(decoded.1, enc.len());
    }
}

#[test]
fn test_null_round_trip() {
    let frame: RespFrame = RespFrame::Null(RespNull);
    let enc = frame.encode();
    assert_eq!(enc, b"_\r\n");
    let decoded = RespFrame::decode(enc.as_slice()).unwrap();
    assert_eq!(decoded.0, Some(RespFrame::Null(RespNull)));
    assert_eq!(decoded.1, 3);
}

#[test]
fn test_null_bulk_and_null_array_sentinels() {
    let frame: RespFrame = RespFrame::BulkString(RespBulkString::null());
    assert_eq!(frame.encode(), b"$-1\r\n");
    let decoded = RespFrame::decode(b"$-1\r\n").unwrap();
    assert_eq!(decoded.0, Some(RespFrame::BulkString(RespBulkString::null())));
    assert_eq!(decoded.1, 5);

    let frame: RespFrame = RespFrame::Array(RespArray::null());
    assert_eq!(frame.encode(), b"*-1\r\n");
    let decoded = RespFrame::decode(b"*-1\r\n").unwrap();
    assert_eq!(decoded.0, Some(RespFrame::Array(RespArray::null())));
    assert_eq!(decoded.1, 5);
}

fn nested_sample() -> RespFrame {
    let mut map = RespMap::new();
    map.insert(simple(b"k"), RespFrame::Integer(-7));
    map.insert(bulk(b"bin\r\nary"), RespFrame::Boolean(false));
    let mut set = RespSet::new();
    set.insert(RespFrame::Integer(3));
    set.insert(RespFrame::Integer(1));
    set.insert(RespFrame::Integer(1));
    RespFrame::Array(RespArray::new(vec![
        RespFrame::MapFrame(map),
        RespFrame::SetFrame(set),
        RespFrame::BulkString(RespBulkString::null()),
        RespFrame::Null(RespNull),
        RespFrame::Double(RespDouble::from_text(b"+0.5").unwrap()),
    ]))
}

#[test]
fn test_round_trip_nested() {
    let frame = nested_sample();
    let enc = frame.encode();
    let decoded = RespFrame::decode(enc.as_slice()).unwrap();
    assert_eq!(decoded.1, enc.len());
    assert_eq!(decoded.0.unwrap(), nested_sample());
}

#[test]
fn test_encode_deterministic() {
    let a = nested_sample().encode();
    let b = nested_sample().encode();
    assert_eq!(a, b);
}

#[test]
fn test_map_canonical_order_independent_of_insertion() {
    let mut ab = RespMap::new();
    ab.insert(simple(b"a"), RespFrame::Integer(1));
    ab.insert(simple(b"b"), RespFrame::Integer(2));
    let mut ba = RespMap::new();
    ba.insert(simple(b"b"), RespFrame::Integer(2));
    ba.insert(simple(b"a"), RespFrame::Integer(1));
    assert_eq!(
        RespFrame::MapFrame(ab).encode(),
        RespFrame::MapFrame(ba).encode()
    );
}

#[test]
fn test_map_duplicate_key_replaces() {
    let mut map = RespMap::new();
    map.insert(simple(b"a"), RespFrame::Integer(1));
    map.insert(simple(b"a"), RespFrame::Integer(2));
    let frame = RespFrame::MapFrame(map);
    assert_eq!(frame.encode(), b"%1\r\n+a\r\n:+2\r\n");
}

#[test]
fn test_set_duplicates_collapse() {
    let mut set = RespSet::new();
    set.insert(RespFrame::Integer(5));
    set.insert(RespFrame::Integer(5));
    let frame = RespFrame::SetFrame(set);
    assert_eq!(frame.encode(), b"~1\r\n:+5\r\n");
}

#[test]
fn test_every_strict_prefix_is_incomplete() {
    let enc = nested_sample().encode();
    for cut in 0..enc.len() {
        let r = RespFrame::decode(&enc[..cut]);
        assert_eq!(r.unwrap_err(), DecodeErr::InComplete, "prefix of {} bytes", cut);
    }
}

#[test]
fn test_trailing_bytes_left_alone() {
    let enc = nested_sample().encode();
    let mut buf = enc.clone();
    buf.extend_from_slice(b"\x00garbage*9$%\r\n\r\n");
    let decoded = RespFrame::decode(buf.as_slice()).unwrap();
    assert_eq!(decoded.1, enc.len());
    assert_eq!(decoded.0.unwrap(), nested_sample());
}

#[test]
fn test_binary_safe_bulk_body() {
    let body: Vec<u8> = vec![13, 10, 0, 255, 13, 10];
    let frame = RespFrame::BulkString(RespBulkString::new(body.as_slice()));
    let enc = frame.encode();
    assert_eq!(enc, b"$6\r\n\r\n\x00\xff\r\n\r\n");
    let decoded = RespFrame::decode(enc.as_slice()).unwrap();
    assert_eq!(decoded.1, enc.len());
    assert_eq!(
        decoded.0.unwrap(),
        RespFrame::BulkString(RespBulkString::new(body.as_slice()))
    );
}

#[test]
fn test_decode_failure_kinds() {
    assert_eq!(RespFrame::decode(b"!oops\r\n").unwrap_err(), DecodeErr::InvalidFrameType);
    assert_eq!(RespFrame::decode(b":12c\r\n").unwrap_err(), DecodeErr::ParseIntError);
    assert_eq!(RespFrame::decode(b"$5\r\nhelloworld\r\n").unwrap_err(), DecodeErr::InvalidLength);
    assert_eq!(RespFrame::decode(b"_x\r\n").unwrap_err(), DecodeErr::InvalidFrame);
    assert_eq!(RespFrame::decode(b"*2\r\n:+1\r\n").unwrap_err(), DecodeErr::InComplete);
    assert_eq!(RespFrame::decode(b"").unwrap_err(), DecodeErr::InComplete);
}

#[test]
fn test_split_r_n_shapes() {
    let (pre, rest) = split_r_n(b"+OK\r\ntail").unwrap();
    assert_eq!(pre, &b"+OK"[..]);
    assert_eq!(rest, &b"tail"[..]);

    assert_eq!(split_r_n(b"+OK").unwrap_err(), DecodeErr::InComplete);
    assert_eq!(split_r_n(b"\r\nrest").unwrap_err(), DecodeErr::InvalidFrame);
}

#[test]
fn test_empty_containers_round_trip() {
    let frame = RespFrame::Array(RespArray::new(vec![]));
    let enc = frame.encode();
    assert_eq!(enc, b"*0\r\n");
    let decoded = RespFrame::decode(enc.as_slice()).unwrap();
    assert_eq!(decoded.0, Some(RespFrame::Array(RespArray::new(vec![]))));

    assert_eq!(RespFrame::MapFrame(RespMap::new()).encode(), b"%0\r\n");
    assert_eq!(RespFrame::SetFrame(RespSet::new()).encode(), b"~0\r\n");

    let frame = RespFrame::BulkString(RespBulkString::new(b""));
    let enc = frame.encode();
    assert_eq!(enc, b"$0\r\n\r\n");
    let decoded = RespFrame::decode(enc.as_slice()).unwrap();
    assert_eq!(decoded.1, enc.len());
    assert_eq!(decoded.0, Some(RespFrame::BulkString(RespBulkString::new(b""))));
}
