use bytes::Bytes;
use bytes::BytesMut;
use resp_codec::encoder::encode_frame;
use resp_codec::Error;
use resp_codec::RespCodec;
use resp_codec::RespFrame;

fn encoded(frame: &RespFrame) -> Vec<u8> {
    encode_frame(frame).unwrap()
}

#[test]
fn error_text_encodes_byte_for_byte() {
    let frame = RespFrame::Error("ERR unknown command".to_string());
    assert_eq!(encoded(&frame), b"-ERR unknown command\r\n".to_vec());
}

#[test]
fn simple_string_encodes_byte_for_byte() {
    assert_eq!(encoded(&RespFrame::SimpleString("OK".to_string())), b"+OK\r\n".to_vec());
    assert_eq!(encoded(&RespFrame::SimpleString(String::new())), b"+\r\n".to_vec());
    assert_eq!(
        encoded(&RespFrame::SimpleString("h\u{e9}".to_string())),
        b"+h\xc3\xa9\r\n".to_vec()
    );
}

#[test]
fn integers_encode_as_shortest_decimal() {
    assert_eq!(encoded(&RespFrame::Integer(0)), b":0\r\n".to_vec());
    assert_eq!(encoded(&RespFrame::Integer(7)), b":7\r\n".to_vec());
    assert_eq!(encoded(&RespFrame::Integer(10)), b":10\r\n".to_vec());
    assert_eq!(encoded(&RespFrame::Integer(-1)), b":-1\r\n".to_vec());
    assert_eq!(encoded(&RespFrame::Integer(1000)), b":1000\r\n".to_vec());
    assert_eq!(encoded(&RespFrame::Integer(i64::MAX)), b":9223372036854775807\r\n".to_vec());
    assert_eq!(encoded(&RespFrame::Integer(i64::MIN)), b":-9223372036854775808\r\n".to_vec());
}

#[test]
fn bulk_strings_encode_with_their_length() {
    assert_eq!(
        encoded(&RespFrame::BulkString(Bytes::from_static(b"hello"))),
        b"$5\r\nhello\r\n".to_vec()
    );
    assert_eq!(encoded(&RespFrame::BulkString(Bytes::new())), b"$0\r\n\r\n".to_vec());
    assert_eq!(
        encoded(&RespFrame::BulkString(Bytes::from_static(b"a\r\nb\x00\xff!"))),
        b"$7\r\na\r\nb\x00\xff!\r\n".to_vec()
    );
    assert_eq!(
        encoded(&RespFrame::BulkString(Bytes::from_static(b"0123456789ab"))),
        b"$12\r\n0123456789ab\r\n".to_vec()
    );
}

#[test]
fn nulls_encode_as_minus_one() {
    assert_eq!(encoded(&RespFrame::Null), b"$-1\r\n".to_vec());
    assert_eq!(encoded(&RespFrame::NullArray), b"*-1\r\n".to_vec());
}

#[test]
fn arrays_encode_count_then_elements() {
    assert_eq!(encoded(&RespFrame::Array(vec![])), b"*0\r\n".to_vec());
    let frame = RespFrame::Array(vec![
        RespFrame::Array(vec![RespFrame::Integer(1), RespFrame::Integer(2)]),
        RespFrame::BulkString(Bytes::from_static(b"x")),
    ]);
    assert_eq!(encoded(&frame), b"*2\r\n*2\r\n:1\r\n:2\r\n$1\r\nx\r\n".to_vec());
}

#[test]
fn text_with_line_terminator_is_rejected() {
    let bad = ["a\rb", "a\nb", "\r\n", "tail\n"];
    for text in bad {
        assert_eq!(
            encode_frame(&RespFrame::SimpleString(text.to_string())),
            Err(Error::InvalidPayload)
        );
        assert_eq!(encode_frame(&RespFrame::Error(text.to_string())), Err(Error::InvalidPayload));
    }
}

#[test]
fn text_with_line_terminator_deep_inside_is_rejected() {
    let frame = RespFrame::Array(vec![
        RespFrame::Integer(1),
        RespFrame::Array(vec![RespFrame::Null, RespFrame::Error("bad\nline".to_string())]),
    ]);
    assert_eq!(encode_frame(&frame), Err(Error::InvalidPayload));
}

#[test]
fn codec_appends_behind_what_the_buffer_holds() {
    let mut codec = RespCodec::new();
    let mut dst = BytesMut::from(&b"+first\r\n"[..]);
    assert_eq!(codec.encode(&RespFrame::Integer(42), &mut dst), Ok(()));
    assert_eq!(&dst[..], b"+first\r\n:42\r\n");
    assert_eq!(codec.encode(&RespFrame::Null, &mut dst), Ok(()));
    assert_eq!(&dst[..], b"+first\r\n:42\r\n$-1\r\n");
}

#[test]
fn codec_emits_nothing_for_an_invalid_payload() {
    let mut codec = RespCodec::new();
    let mut dst = BytesMut::from(&b"+first\r\n"[..]);
    let frame = RespFrame::Array(vec![
        RespFrame::Integer(1),
        RespFrame::SimpleString("two\r\nlines".to_string()),
    ]);
    assert_eq!(codec.encode(&frame, &mut dst), Err(Error::InvalidPayload));
    assert_eq!(&dst[..], b"+first\r\n");
}
