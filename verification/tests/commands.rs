//! Command parsing, store semantics, and wire-exact request/reply
//! scenarios through the dispatcher.

use simple_redis::backend::Backend;
use simple_redis::cmd::hmap::HmgetCommand;
use simple_redis::cmd::map::{GetCommand, SetCommand};
use simple_redis::cmd::{is_valid_utf8, ExecuteError};
use simple_redis::network::codec::RespCodec;
use simple_redis::network::request_handler;
use simple_redis::resp::array::RespArray;
use simple_redis::resp::bulkstring::RespBulkString;
use simple_redis::resp::frame::{RespEncode, RespFrame};

fn bulk(s: &[u8]) -> RespFrame {
    RespFrame::BulkString(RespBulkString::new(s))
}

#[test]
fn get_try_from() {
    let arr = RespArray::new(vec![bulk(b"get"), bulk(b"hello")]);
    let get = GetCommand::try_from(arr).unwrap();
    assert_eq!(get.key, b"hello");
}

#[test]
fn set_try_from() {
    let arr = RespArray::new(vec![bulk(b"set"), bulk(b"hello"), bulk(b"world")]);
    let set = SetCommand::try_from(arr).unwrap();
    assert_eq!(set.key, b"hello");
    assert_eq!(bulk(b"world"), set.value);
}

#[test]
fn test_hmget_try_from() {
    let arr = RespArray::new(vec![
        bulk(b"hmget"),
        bulk(b"k"),
        bulk(b"f1"),
        bulk(b"f2"),
    ]);
    let hmget = HmgetCommand { key: b"k".to_vec(), fields: vec![b"f1".to_vec(), b"f2".to_vec()] };

    let transformed = HmgetCommand::try_from(arr).unwrap();
    assert_eq!(hmget, transformed);
}

#[test]
fn test_try_from_failures() {
    // wrong arity
    let arr = RespArray::new(vec![bulk(b"get")]);
    assert_eq!(GetCommand::try_from(arr).unwrap_err(), ExecuteError::InvalidArgument);
    // non-bulk key
    let arr = RespArray::new(vec![bulk(b"get"), RespFrame::Integer(1)]);
    assert_eq!(GetCommand::try_from(arr).unwrap_err(), ExecuteError::InvalidCommand);
    // null array request
    assert_eq!(GetCommand::try_from(RespArray::null()).unwrap_err(), ExecuteError::InvalidCommand);
    // key that is not UTF-8
    let arr = RespArray::new(vec![bulk(b"get"), bulk(b"\xff\xfe")]);
    assert_eq!(GetCommand::try_from(arr).unwrap_err(), ExecuteError::FromUtf8Error);
}

#[test]
fn test_utf8_checker() {
    assert!(is_valid_utf8(b"plain ascii"));
    assert!(is_valid_utf8("caf\u{e9} \u{4e16}\u{754c} \u{1f600}".as_bytes()));
    assert!(!is_valid_utf8(b"\xff"));
    assert!(!is_valid_utf8(b"\xc3"));
    assert!(!is_valid_utf8(b"\xc0\xaf"));
    assert!(!is_valid_utf8(b"\xed\xa0\x80"));
}

#[test]
fn test_store_set_then_get() {
    let mut b = Backend::new();
    b.set(b"k", RespFrame::Integer(42));
    assert_eq!(b.get(b"k"), Some(RespFrame::Integer(42)));
    assert_eq!(b.get(b"other"), None);
    b.set(b"k", bulk(b"v2"));
    assert_eq!(b.get(b"k"), Some(bulk(b"v2")));
}

#[test]
fn test_store_hset_then_hget() {
    let mut b = Backend::new();
    b.hset(b"map", b"f", bulk(b"v"));
    assert_eq!(b.hget(b"map", b"f"), Some(bulk(b"v")));
    assert_eq!(b.hget(b"map", b"x"), None);
    assert_eq!(b.hget(b"nope", b"f"), None);
}

#[test]
fn test_store_hmget_order_and_missing() {
    let mut b = Backend::new();
    b.hset(b"map", b"f1", RespFrame::Integer(1));
    b.hset(b"map", b"f3", RespFrame::Integer(3));
    let fields = vec![b"f1".to_vec(), b"f2".to_vec(), b"f3".to_vec()];
    let got = b.hmget(b"map", &fields);
    assert_eq!(got.len(), 3);
    assert_eq!(got[0], RespFrame::Integer(1));
    assert_eq!(got[1], RespFrame::BulkString(RespBulkString::null()));
    assert_eq!(got[2], RespFrame::Integer(3));

    let absent = b.hmget(b"nope", &fields);
    assert_eq!(absent.len(), 3);
    for f in absent {
        assert_eq!(f, RespFrame::BulkString(RespBulkString::null()));
    }
}

#[test]
fn test_store_sadd_sismember() {
    let mut b = Backend::new();
    assert_eq!(b.sadd(b"s", bulk(b"a")), 1);
    assert_eq!(b.sismember(b"s", &bulk(b"a")), 1);
    assert_eq!(b.sadd(b"s", bulk(b"a")), 0);
    assert_eq!(b.sismember(b"s", &bulk(b"b")), 0);
}

#[test]
fn test_store_sadd_distinct_sum() {
    let mut b = Backend::new();
    let members: Vec<RespFrame> = (0..10).map(RespFrame::Integer).collect();
    let mut sum = 0;
    for m in members {
        sum += b.sadd(b"s", m);
    }
    assert_eq!(sum, 10);
    for v in 0..10 {
        assert_eq!(b.sismember(b"s", &RespFrame::Integer(v)), 1);
    }
}

/// Feed one wire request through the codec and dispatcher, returning the
/// wire reply.
fn roundtrip(backend: &mut Backend, request: &[u8]) -> Vec<u8> {
    let mut codec = RespCodec;
    let mut buf: Vec<u8> = request.to_vec();
    let frame = codec.decode(&mut buf).unwrap().expect("whole frame");
    assert!(buf.is_empty(), "request fully consumed");
    let reply = request_handler(frame, backend).unwrap();
    let mut out: Vec<u8> = Vec::new();
    codec.encode(reply, &mut out);
    out
}

#[test]
fn test_wire_set_then_get() {
    let mut b = Backend::new();
    let reply = roundtrip(&mut b, b"*3\r\n$3\r\nSET\r\n$5\r\nhello\r\n$5\r\nworld\r\n");
    assert_eq!(reply, b"+OK\r\n");
    let reply = roundtrip(&mut b, b"*2\r\n$3\r\nGET\r\n$5\r\nhello\r\n");
    assert_eq!(reply, b"$5\r\nworld\r\n");
}

#[test]
fn test_wire_get_missing() {
    let mut b = Backend::new();
    let reply = roundtrip(&mut b, b"*2\r\n$3\r\nGET\r\n$7\r\nmissing\r\n");
    assert_eq!(reply, b"_\r\n");
}

#[test]
fn test_wire_hset_hgetall() {
    let mut b = Backend::new();
    let reply = roundtrip(&mut b, b"*4\r\n$4\r\nHSET\r\n$3\r\nmap\r\n$1\r\nf\r\n$1\r\nv\r\n");
    assert_eq!(reply, b"+OK\r\n");
    let reply = roundtrip(&mut b, b"*2\r\n$7\r\nHGETALL\r\n$3\r\nmap\r\n");
    assert_eq!(reply, b"*2\r\n$1\r\nf\r\n$1\r\nv\r\n");
}

#[test]
fn test_wire_hmget() {
    let mut b = Backend::new();
    let reply = roundtrip(&mut b, b"*4\r\n$4\r\nHSET\r\n$3\r\nmap\r\n$1\r\nf\r\n$1\r\nv\r\n");
    assert_eq!(reply, b"+OK\r\n");
    let reply = roundtrip(&mut b, b"*4\r\n$5\r\nHMGET\r\n$3\r\nmap\r\n$1\r\nf\r\n$1\r\nx\r\n");
    assert_eq!(reply, b"*2\r\n$1\r\nv\r\n$-1\r\n");
}

#[test]
fn test_wire_sadd_sismember() {
    let mut b = Backend::new();
    let reply = roundtrip(&mut b, b"*3\r\n$4\r\nSADD\r\n$1\r\ns\r\n$1\r\na\r\n");
    assert_eq!(reply, b":+1\r\n");
    let reply = roundtrip(&mut b, b"*3\r\n$4\r\nSADD\r\n$1\r\ns\r\n$1\r\na\r\n");
    assert_eq!(reply, b":0\r\n");
    let reply = roundtrip(&mut b, b"*3\r\n$9\r\nSISMEMBER\r\n$1\r\ns\r\n$1\r\na\r\n");
    assert_eq!(reply, b":+1\r\n");
    let reply = roundtrip(&mut b, b"*3\r\n$9\r\nSISMEMBER\r\n$1\r\ns\r\n$1\r\nb\r\n");
    assert_eq!(reply, b":0\r\n");
}

#[test]
fn test_wire_echo() {
    let mut b = Backend::new();
    let reply = roundtrip(&mut b, b"*2\r\n$4\r\nECHO\r\n$5\r\nhello\r\n");
    assert_eq!(reply, b"$5\r\nhello\r\n");
}

#[test]
fn test_wire_hget() {
    let mut b = Backend::new();
    let reply = roundtrip(&mut b, b"*4\r\n$4\r\nHSET\r\n$3\r\nmap\r\n$1\r\nf\r\n$1\r\nv\r\n");
    assert_eq!(reply, b"+OK\r\n");
    let reply = roundtrip(&mut b, b"*3\r\n$4\r\nHGET\r\n$3\r\nmap\r\n$1\r\nf\r\n");
    assert_eq!(reply, b"$1\r\nv\r\n");
    let reply = roundtrip(&mut b, b"*3\r\n$4\r\nHGET\r\n$3\r\nmap\r\n$1\r\nx\r\n");
    assert_eq!(reply, b"_\r\n");
}

#[test]
fn test_wire_unknown_command() {
    let mut b = Backend::new();
    let reply = roundtrip(&mut b, b"*1\r\n$4\r\nPING\r\n");
    assert_eq!(reply, b"+unimplemented command: PING\r\n");
}

#[test]
fn test_request_handler_rejects_non_array() {
    let mut b = Backend::new();
    let r = request_handler(RespFrame::Integer(1), &mut b);
    assert_eq!(r.unwrap_err(), ExecuteError::InvalidCommand);
}

#[test]
fn test_codec_pipelined_requests() {
    let mut codec = RespCodec;
    let mut buf: Vec<u8> = Vec::new();
    buf.extend_from_slice(b":+1\r\n:+2\r\n");
    let one = codec.decode(&mut buf).unwrap().unwrap();
    assert_eq!(one, RespFrame::Integer(1));
    assert_eq!(buf, b":+2\r\n");
    let two = codec.decode(&mut buf).unwrap().unwrap();
    assert_eq!(two, RespFrame::Integer(2));
    assert!(buf.is_empty());
}

#[test]
fn test_codec_waits_for_more_bytes() {
    let mut codec = RespCodec;
    let mut buf: Vec<u8> = b"*2\r\n$3\r\nGET".to_vec();
    assert_eq!(codec.decode(&mut buf).unwrap(), None);
    assert_eq!(buf, b"*2\r\n$3\r\nGET");
    buf.extend_from_slice(b"\r\n$1\r\nk\r\n");
    let frame = codec.decode(&mut buf).unwrap().unwrap();
    assert_eq!(frame, RespFrame::Array(RespArray::new(vec![bulk(b"GET"), bulk(b"k")])));
}
