use bytes::BytesMut;
use redis_clone::codec::{FrameError, RespCodec};
use redis_clone::frame::Frame;

fn encoded(frame: Frame) -> BytesMut {
    let mut codec = RespCodec;
    let mut dst = BytesMut::new();
    codec.encode(frame, &mut dst);
    dst
}

#[test]
fn test_decode_simple_string() {
    let mut codec = RespCodec;
    let mut buf = BytesMut::from("+OK\r\n");
    let res = codec.decode(&mut buf).unwrap().unwrap();
    assert_eq!(res, Frame::Simple("OK".to_string()));
}

#[test]
fn test_decode_bulk_string() {
    let mut codec = RespCodec;
    let mut buf = BytesMut::from("$6\r\nfoobar\r\n");
    let res = codec.decode(&mut buf).unwrap().unwrap();

    if let Frame::Bulk(b) = res {
        assert_eq!(b, b"foobar".to_vec());
    } else {
        panic!("Expected Bulk string");
    }
}

#[test]
fn test_decode_array() {
    let mut codec = RespCodec;
    let mut buf = BytesMut::from("*2\r\n$3\r\nfoo\r\n$3\r\nbar\r\n");
    let res = codec.decode(&mut buf).unwrap().unwrap();

    if let Frame::Array(frames) = res {
        assert_eq!(frames.len(), 2);
        assert_eq!(frames[0], Frame::Bulk(b"foo".to_vec()));
        assert_eq!(frames[1], Frame::Bulk(b"bar".to_vec()));
    } else {
        panic!("Expected Array");
    }
}

#[test]
fn test_decode_partial_frame() {
    let mut codec = RespCodec;
    // Send half a command
    let mut buf = BytesMut::from("*2\r\n$3\r\nfoo\r\n");

    // Should return Ok(None) -> "I need more bytes"
    let res = codec.decode(&mut buf).unwrap();
    assert!(res.is_none());

    // Add the rest
    buf.extend_from_slice(b"$3\r\nbar\r\n");
    let res = codec.decode(&mut buf).unwrap().unwrap();

    if let Frame::Array(frames) = res {
        assert_eq!(frames.len(), 2);
    } else {
        panic!("Expected Array");
    }
}

#[test]
fn decode_consumes_exactly_one_frame() {
    let mut codec = RespCodec;
    let mut buf = BytesMut::from(":42\r\n+next\r\n");
    assert_eq!(codec.decode(&mut buf).unwrap().unwrap(), Frame::Integer(42));
    assert_eq!(&buf[..], b"+next\r\n");
    assert_eq!(codec.decode(&mut buf).unwrap().unwrap(), Frame::Simple("next".to_string()));
    assert!(buf.is_empty());
    assert!(codec.decode(&mut buf).unwrap().is_none());
}

#[test]
fn decode_leaves_an_incomplete_buffer_alone() {
    let mut codec = RespCodec;
    let mut buf = BytesMut::from("$5\r\nhel");
    assert!(codec.decode(&mut buf).unwrap().is_none());
    assert_eq!(&buf[..], b"$5\r\nhel");
}

#[test]
fn decode_null_error_and_negative_integer() {
    let mut codec = RespCodec;
    let mut buf = BytesMut::from("$-1\r\n-ERR bad\r\n:-17\r\n:+5\r\n");
    assert_eq!(codec.decode(&mut buf).unwrap().unwrap(), Frame::Null);
    assert_eq!(codec.decode(&mut buf).unwrap().unwrap(), Frame::Error("ERR bad".to_string()));
    assert_eq!(codec.decode(&mut buf).unwrap().unwrap(), Frame::Integer(-17));
    assert_eq!(codec.decode(&mut buf).unwrap().unwrap(), Frame::Integer(5));
}

#[test]
fn decode_extreme_integers() {
    let mut codec = RespCodec;
    let mut buf = BytesMut::from(":-9223372036854775808\r\n:9223372036854775807\r\n");
    assert_eq!(codec.decode(&mut buf).unwrap().unwrap(), Frame::Integer(i64::MIN));
    assert_eq!(codec.decode(&mut buf).unwrap().unwrap(), Frame::Integer(i64::MAX));
    let mut buf = BytesMut::from(":9223372036854775808\r\n");
    assert_eq!(codec.decode(&mut buf).unwrap_err(), FrameError::InvalidInteger);
}

#[test]
fn decode_inline_command_splits_on_white_space() {
    let mut codec = RespCodec;
    let mut buf = BytesMut::from("SET  key\tvalue\r\n");
    let res = codec.decode(&mut buf).unwrap().unwrap();
    assert_eq!(
        res,
        Frame::Array(vec![
            Frame::Bulk(b"SET".to_vec()),
            Frame::Bulk(b"key".to_vec()),
            Frame::Bulk(b"value".to_vec()),
        ])
    );
    // U+00A0 (no-break space) is white space too.
    let mut buf = BytesMut::from("PING\u{a0}hi\r\n");
    let res = codec.decode(&mut buf).unwrap().unwrap();
    assert_eq!(
        res,
        Frame::Array(vec![Frame::Bulk(b"PING".to_vec()), Frame::Bulk(b"hi".to_vec())])
    );
}

#[test]
fn decode_errors() {
    let mut codec = RespCodec;
    let mut buf = BytesMut::from("@@@GARBAGE_DATA###");
    assert_eq!(codec.decode(&mut buf).unwrap_err(), FrameError::InvalidTypeByte(b'@'));
    assert_eq!(buf.len(), 18);

    let mut buf = BytesMut::from(":12a\r\n");
    assert_eq!(codec.decode(&mut buf).unwrap_err(), FrameError::InvalidInteger);

    let mut buf = BytesMut::from(&b"+\xff\r\n"[..]);
    assert_eq!(codec.decode(&mut buf).unwrap_err(), FrameError::InvalidUtf8);

    let mut buf = BytesMut::from("$x\r\n");
    assert_eq!(codec.decode(&mut buf).unwrap_err(), FrameError::InvalidInteger);
}

#[test]
fn decode_overflowing_lengths_are_reported() {
    let buf = BytesMut::from("$-2\r\n");
    assert!(RespCodec::decode_overflows(&buf));
    let buf = BytesMut::from("*-1\r\n");
    assert!(RespCodec::decode_overflows(&buf));
    let buf = BytesMut::from("*2\r\n*-1\r\n");
    assert!(!RespCodec::decode_overflows(&buf));
    let buf = BytesMut::from("$-3\r\n");
    assert!(!RespCodec::decode_overflows(&buf));
    let mut codec = RespCodec;
    let mut buf = BytesMut::from("$-3\r\n");
    assert!(codec.decode(&mut buf).unwrap().is_none());
    let mut buf = BytesMut::from("$-2\r\n");
    assert_eq!(codec.decode(&mut buf), Err(FrameError::LengthOverflow));
    assert_eq!(&buf[..], b"$-2\r\n");
    let mut buf = BytesMut::from("*-1\r\n");
    assert_eq!(codec.decode(&mut buf), Err(FrameError::LengthOverflow));
    assert_eq!(&buf[..], b"*-1\r\n");
}

#[test]
fn encode_each_kind() {
    assert_eq!(&encoded(Frame::Simple("OK".to_string()))[..], b"+OK\r\n");
    assert_eq!(&encoded(Frame::Error("ERR x".to_string()))[..], b"-ERR x\r\n");
    assert_eq!(&encoded(Frame::Integer(1000))[..], b":1000\r\n");
    assert_eq!(&encoded(Frame::Integer(-7))[..], b":-7\r\n");
    assert_eq!(&encoded(Frame::Integer(i64::MIN))[..], b":-9223372036854775808\r\n");
    assert_eq!(&encoded(Frame::Bulk(b"foobar".to_vec()))[..], b"$6\r\nfoobar\r\n");
    assert_eq!(&encoded(Frame::Null)[..], b"$-1\r\n");
    assert_eq!(
        &encoded(Frame::Array(vec![
            Frame::Bulk(b"foo".to_vec()),
            Frame::Bulk(b"bar".to_vec())
        ]))[..],
        b"*2\r\n$3\r\nfoo\r\n$3\r\nbar\r\n"
    );
    assert_eq!(&encoded(Frame::Array(vec![]))[..], b"*0\r\n");
}

#[test]
fn encode_appends_to_what_is_there() {
    let mut codec = RespCodec;
    let mut dst = BytesMut::from("x");
    codec.encode(Frame::Integer(1), &mut dst);
    assert_eq!(&dst[..], b"x:1\r\n");
}

#[test]
fn decode_gives_back_what_encode_wrote() {
    let frame = Frame::Array(vec![
        Frame::Simple("héllo".to_string()),
        Frame::Error("boom".to_string()),
        Frame::Integer(-123456789),
        Frame::Bulk(b"a\r\nb".to_vec()),
        Frame::Null,
        Frame::Array(vec![Frame::Bulk(vec![])]),
    ]);
    let mut buf = encoded(frame);
    buf.extend_from_slice(b"+after\r\n");
    let mut codec = RespCodec;
    let back = codec.decode(&mut buf).unwrap().unwrap();
    assert_eq!(
        back,
        Frame::Array(vec![
            Frame::Simple("héllo".to_string()),
            Frame::Error("boom".to_string()),
            Frame::Integer(-123456789),
            Frame::Bulk(b"a\r\nb".to_vec()),
            Frame::Null,
            Frame::Array(vec![Frame::Bulk(vec![])]),
        ])
    );
    assert_eq!(&buf[..], b"+after\r\n");
}
