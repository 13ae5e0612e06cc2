use bytes::Bytes;
use bytes::BytesMut;
use resp_codec::Error;
use resp_codec::Limits;
use resp_codec::RespCodec;
use resp_codec::RespFrame;

fn bulk(data: &'static [u8]) -> RespFrame {
    RespFrame::BulkString(Bytes::from_static(data))
}

fn small_limits() -> Limits {
    Limits { max_depth: 2, max_array_len: 3, max_bulk_len: 8, max_frame_len: 32 }
}

#[test]
fn empty_buffer_holds_no_frame_yet() {
    let mut codec = RespCodec::new();
    let mut buf = BytesMut::new();
    assert_eq!(codec.decode(&mut buf), Ok(None));
    assert_eq!(buf.len(), 0);
}

#[test]
fn command_array_decodes_and_is_consumed_whole() {
    let input: &[u8] = b"*2\r\n$3\r\nGET\r\n$3\r\nfoo\r\n";
    let mut codec = RespCodec::new();
    let mut buf = BytesMut::from(input);
    let before = buf.len();
    let frame = codec.decode(&mut buf);
    assert_eq!(frame, Ok(Some(RespFrame::Array(vec![bulk(b"GET"), bulk(b"foo")]))));
    assert_eq!(before - buf.len(), input.len());
    assert_eq!(before - buf.len(), 22);
    assert_eq!(buf.len(), 0);
}

#[test]
fn simple_string_decodes() {
    let mut codec = RespCodec::new();
    let mut buf = BytesMut::from(&b"+OK\r\n"[..]);
    assert_eq!(codec.decode(&mut buf), Ok(Some(RespFrame::SimpleString("OK".to_string()))));
    assert_eq!(buf.len(), 0);
}

#[test]
fn error_text_decodes() {
    let mut codec = RespCodec::new();
    let mut buf = BytesMut::from(&b"-ERR unknown command\r\n"[..]);
    assert_eq!(
        codec.decode(&mut buf),
        Ok(Some(RespFrame::Error("ERR unknown command".to_string())))
    );
}

#[test]
fn text_with_multibyte_characters_decodes() {
    let mut codec = RespCodec::new();
    let mut buf = BytesMut::from("+h\u{e9}llo \u{4e16}\u{754c}\r\n".as_bytes());
    assert_eq!(
        codec.decode(&mut buf),
        Ok(Some(RespFrame::SimpleString("h\u{e9}llo \u{4e16}\u{754c}".to_string())))
    );
}

#[test]
fn integers_decode_with_sign_and_leading_zeros() {
    let mut codec = RespCodec::new();
    let mut buf = BytesMut::from(&b":12345\r\n:-42\r\n:007\r\n:0\r\n:-0\r\n"[..]);
    assert_eq!(codec.decode(&mut buf), Ok(Some(RespFrame::Integer(12345))));
    assert_eq!(codec.decode(&mut buf), Ok(Some(RespFrame::Integer(-42))));
    assert_eq!(codec.decode(&mut buf), Ok(Some(RespFrame::Integer(7))));
    assert_eq!(codec.decode(&mut buf), Ok(Some(RespFrame::Integer(0))));
    assert_eq!(codec.decode(&mut buf), Ok(Some(RespFrame::Integer(0))));
    assert_eq!(codec.decode(&mut buf), Ok(None));
}

#[test]
fn integers_decode_at_both_ends_of_the_range() {
    let mut codec = RespCodec::new();
    let mut buf = BytesMut::from(&b":9223372036854775807\r\n:-9223372036854775808\r\n"[..]);
    assert_eq!(codec.decode(&mut buf), Ok(Some(RespFrame::Integer(i64::MAX))));
    assert_eq!(codec.decode(&mut buf), Ok(Some(RespFrame::Integer(i64::MIN))));
}

#[test]
fn integer_out_of_range_is_invalid() {
    let mut codec = RespCodec::new();
    let mut buf = BytesMut::from(&b":9223372036854775808\r\n"[..]);
    assert_eq!(codec.decode(&mut buf), Err(Error::InvalidInteger));
    let mut buf = BytesMut::from(&b":-9223372036854775809\r\n"[..]);
    assert_eq!(codec.decode(&mut buf), Err(Error::InvalidInteger));
}

#[test]
fn integer_with_other_content_is_invalid() {
    let inputs: [&[u8]; 6] =
        [b":abc\r\n", b":12a\r\n", b":+5\r\n", b":\r\n", b":-\r\n", b": 5\r\n"];
    for input in inputs {
        let mut codec = RespCodec::new();
        let mut buf = BytesMut::from(input);
        assert_eq!(codec.decode(&mut buf), Err(Error::InvalidInteger));
        assert_eq!(&buf[..], input);
    }
}

#[test]
fn empty_bulk_string_is_not_null() {
    let mut codec = RespCodec::new();
    let mut buf = BytesMut::from(&b"$0\r\n\r\n"[..]);
    let empty = codec.decode(&mut buf);
    assert_eq!(empty, Ok(Some(bulk(b""))));
    assert_eq!(buf.len(), 0);
    let mut buf = BytesMut::from(&b"$-1\r\n"[..]);
    let null = codec.decode(&mut buf);
    assert_eq!(null, Ok(Some(RespFrame::Null)));
    assert_eq!(buf.len(), 0);
    assert_ne!(empty, null);
}

#[test]
fn bulk_string_may_hold_line_terminators() {
    let mut codec = RespCodec::new();
    let mut buf = BytesMut::from(&b"$8\r\na\r\nb\r\n\x00\xff\r\n+next\r\n"[..]);
    assert_eq!(codec.decode(&mut buf), Ok(Some(bulk(b"a\r\nb\r\n\x00\xff"))));
    assert_eq!(&buf[..], b"+next\r\n");
}

#[test]
fn bulk_string_without_terminator_is_invalid() {
    let mut codec = RespCodec::new();
    let mut buf = BytesMut::from(&b"$3\r\nabcde\r\n"[..]);
    assert_eq!(codec.decode(&mut buf), Err(Error::InvalidFrame));
    assert_eq!(&buf[..], b"$3\r\nabcde\r\n");
}

#[test]
fn empty_array_and_null_array_are_distinct() {
    let mut codec = RespCodec::new();
    let mut buf = BytesMut::from(&b"*0\r\n*-1\r\n"[..]);
    assert_eq!(codec.decode(&mut buf), Ok(Some(RespFrame::Array(vec![]))));
    assert_eq!(codec.decode(&mut buf), Ok(Some(RespFrame::NullArray)));
    assert_eq!(buf.len(), 0);
}

#[test]
fn nested_arrays_decode() {
    let mut codec = RespCodec::new();
    let mut buf = BytesMut::from(&b"*2\r\n*2\r\n:1\r\n:2\r\n$1\r\nx\r\n"[..]);
    assert_eq!(
        codec.decode(&mut buf),
        Ok(Some(RespFrame::Array(vec![
            RespFrame::Array(vec![RespFrame::Integer(1), RespFrame::Integer(2)]),
            bulk(b"x"),
        ])))
    );
    assert_eq!(buf.len(), 0);
}

#[test]
fn malformed_input_is_fatal_and_consumes_nothing() {
    let cases: [(&[u8], Error); 3] = [
        (b"$-2\r\n", Error::InvalidFrame),
        (b":abc\r\n", Error::InvalidInteger),
        (b"@\r\n", Error::UnknownType(b'@')),
    ];
    for (input, expected) in cases {
        let mut codec = RespCodec::new();
        let mut buf = BytesMut::from(input);
        let result = codec.decode(&mut buf);
        assert_eq!(result, Err(expected));
        assert!(expected.is_fatal());
        assert_eq!(&buf[..], input);
        assert_eq!(codec.decode(&mut buf), Err(expected));
        assert_eq!(&buf[..], input);
    }
}

#[test]
fn negative_lengths_other_than_minus_one_are_invalid() {
    let inputs: [&[u8]; 5] = [b"$-2\r\n", b"$-10\r\n", b"$-\r\n", b"*-2\r\n", b"*-1x\r\n"];
    for input in inputs {
        let mut codec = RespCodec::new();
        let mut buf = BytesMut::from(input);
        assert_eq!(codec.decode(&mut buf), Err(Error::InvalidFrame));
    }
}

#[test]
fn length_that_is_no_number_is_invalid() {
    let inputs: [&[u8]; 4] = [b"$abc\r\n", b"$\r\n", b"*1x\r\n", b"$+3\r\nabc\r\n"];
    for input in inputs {
        let mut codec = RespCodec::new();
        let mut buf = BytesMut::from(input);
        assert_eq!(codec.decode(&mut buf), Err(Error::InvalidInteger));
    }
}

#[test]
fn text_with_stray_terminator_byte_is_invalid() {
    let inputs: [&[u8]; 3] = [b"+a\rb\r\n", b"+a\nb\r\n", b"-\n\r\n"];
    for input in inputs {
        let mut codec = RespCodec::new();
        let mut buf = BytesMut::from(input);
        assert_eq!(codec.decode(&mut buf), Err(Error::InvalidFrame));
        assert_eq!(&buf[..], input);
    }
}

#[test]
fn text_that_is_not_utf8_is_invalid() {
    let mut codec = RespCodec::new();
    let mut buf = BytesMut::from(&b"+\xff\xfe\r\n"[..]);
    assert_eq!(codec.decode(&mut buf), Err(Error::InvalidFrame));
    assert_eq!(&buf[..], b"+\xff\xfe\r\n");
}

#[test]
fn truncated_input_waits_and_leaves_the_buffer_alone() {
    let inputs: [&[u8]; 9] = [
        b"+OK",
        b"+OK\r",
        b":12",
        b"$",
        b"$3",
        b"$3\r\nab",
        b"$3\r\nabc\r",
        b"*2\r\n:1\r\n",
        b"*2\r\n:1\r\n$-",
    ];
    for input in inputs {
        let mut codec = RespCodec::new();
        let mut buf = BytesMut::from(input);
        for _ in 0..3 {
            assert_eq!(codec.decode(&mut buf), Ok(None));
            assert_eq!(&buf[..], input);
        }
    }
}

#[test]
fn truncated_frame_completes_once_the_rest_arrives() {
    let mut codec = RespCodec::new();
    let mut buf = BytesMut::from(&b"$5\r\nhel"[..]);
    assert_eq!(codec.decode(&mut buf), Ok(None));
    buf.extend_from_slice(b"lo\r");
    assert_eq!(codec.decode(&mut buf), Ok(None));
    buf.extend_from_slice(b"\n");
    assert_eq!(codec.decode(&mut buf), Ok(Some(bulk(b"hello"))));
    assert_eq!(buf.len(), 0);
    assert_eq!(codec.decode(&mut buf), Ok(None));
}

#[test]
fn every_split_into_two_chunks_delivers_the_same_frame() {
    let input: &[u8] = b"*3\r\n$3\r\nSET\r\n+k\r\n*2\r\n:-7\r\n$-1\r\n";
    let mut whole = BytesMut::from(input);
    let expected = RespCodec::new().decode(&mut whole);
    assert!(matches!(expected, Ok(Some(_))));
    for cut in 1..input.len() {
        let mut codec = RespCodec::new();
        let mut buf = BytesMut::new();
        buf.extend_from_slice(&input[..cut]);
        assert_eq!(codec.decode(&mut buf), Ok(None));
        assert_eq!(&buf[..], &input[..cut]);
        buf.extend_from_slice(&input[cut..]);
        assert_eq!(codec.decode(&mut buf), expected);
        assert_eq!(buf.len(), 0);
    }
}

#[test]
fn byte_by_byte_delivery_yields_exactly_one_frame() {
    let input: &[u8] = b"*2\r\n$3\r\nGET\r\n$3\r\nfoo\r\n";
    let mut codec = RespCodec::new();
    let mut buf = BytesMut::new();
    let mut frames = Vec::new();
    for byte in input {
        buf.extend_from_slice(&[*byte]);
        match codec.decode(&mut buf) {
            Ok(Some(frame)) => frames.push(frame),
            Ok(None) => {}
            Err(e) => panic!("failure surfaced: {:?}", e),
        }
    }
    assert_eq!(frames, vec![RespFrame::Array(vec![bulk(b"GET"), bulk(b"foo")])]);
    assert_eq!(buf.len(), 0);
}

#[test]
fn pipelined_frames_come_out_one_per_call() {
    let mut codec = RespCodec::new();
    let mut buf = BytesMut::from(&b"+a\r\n:2\r\n$1\r\nc\r\n+par"[..]);
    assert_eq!(codec.decode(&mut buf), Ok(Some(RespFrame::SimpleString("a".to_string()))));
    assert_eq!(&buf[..], b":2\r\n$1\r\nc\r\n+par");
    assert_eq!(codec.decode(&mut buf), Ok(Some(RespFrame::Integer(2))));
    assert_eq!(codec.decode(&mut buf), Ok(Some(bulk(b"c"))));
    assert_eq!(codec.decode(&mut buf), Ok(None));
    assert_eq!(&buf[..], b"+par");
}

#[test]
fn first_failure_in_an_array_fails_the_whole() {
    let mut codec = RespCodec::new();
    let mut buf = BytesMut::from(&b"*3\r\n:1\r\n:x\r\n@\r\n"[..]);
    assert_eq!(codec.decode(&mut buf), Err(Error::InvalidInteger));
    assert_eq!(&buf[..], b"*3\r\n:1\r\n:x\r\n@\r\n");
}

#[test]
fn declared_bulk_length_above_the_bound_is_too_large() {
    let mut codec = RespCodec::with_limits(small_limits());
    let mut buf = BytesMut::from(&b"$8\r\n12345678\r\n"[..]);
    assert_eq!(codec.decode(&mut buf), Ok(Some(bulk(b"12345678"))));
    let mut buf = BytesMut::from(&b"$9\r\n"[..]);
    assert_eq!(codec.decode(&mut buf), Err(Error::FrameTooLarge));
    let mut buf = BytesMut::from(&b"$99999999999999999999999999\r\n"[..]);
    assert_eq!(codec.decode(&mut buf), Err(Error::FrameTooLarge));
    assert_eq!(&buf[..], b"$99999999999999999999999999\r\n");
}

#[test]
fn declared_array_count_above_the_bound_is_too_large() {
    let mut codec = RespCodec::with_limits(small_limits());
    let mut buf = BytesMut::from(&b"*3\r\n:1\r\n:2\r\n:3\r\n"[..]);
    assert_eq!(
        codec.decode(&mut buf),
        Ok(Some(RespFrame::Array(vec![
            RespFrame::Integer(1),
            RespFrame::Integer(2),
            RespFrame::Integer(3),
        ])))
    );
    let mut buf = BytesMut::from(&b"*4\r\n"[..]);
    assert_eq!(codec.decode(&mut buf), Err(Error::FrameTooLarge));
}

#[test]
fn arrays_nested_beyond_the_bound_are_invalid() {
    let mut codec = RespCodec::with_limits(small_limits());
    let mut buf = BytesMut::from(&b"*1\r\n*1\r\n:1\r\n"[..]);
    assert_eq!(
        codec.decode(&mut buf),
        Ok(Some(RespFrame::Array(vec![RespFrame::Array(vec![RespFrame::Integer(1)])])))
    );
    let mut buf = BytesMut::from(&b"*1\r\n*1\r\n*1\r\n:1\r\n"[..]);
    assert_eq!(codec.decode(&mut buf), Err(Error::InvalidFrame));
    let mut buf = BytesMut::from(&b"*1\r\n*1\r\n*0\r\n"[..]);
    assert_eq!(codec.decode(&mut buf), Err(Error::InvalidFrame));
    let mut buf = BytesMut::from(&b"*1\r\n*1\r\n*-1\r\n"[..]);
    assert_eq!(
        codec.decode(&mut buf),
        Ok(Some(RespFrame::Array(vec![RespFrame::Array(vec![RespFrame::NullArray])])))
    );
}

#[test]
fn default_limits_admit_sixty_four_levels_and_no_more() {
    let mut deep = Vec::new();
    for _ in 0..64 {
        deep.extend_from_slice(b"*1\r\n");
    }
    deep.extend_from_slice(b":1\r\n");
    let mut codec = RespCodec::new();
    let mut buf = BytesMut::from(&deep[..]);
    assert!(matches!(codec.decode(&mut buf), Ok(Some(RespFrame::Array(_)))));
    assert_eq!(buf.len(), 0);
    let mut deeper = b"*1\r\n".to_vec();
    deeper.extend_from_slice(&deep);
    let mut buf = BytesMut::from(&deeper[..]);
    assert_eq!(codec.decode(&mut buf), Err(Error::InvalidFrame));
    assert_eq!(buf.len(), deeper.len());
}

#[test]
fn unfinished_frame_that_fills_the_buffer_is_invalid() {
    let limits = Limits { max_depth: 2, max_array_len: 3, max_bulk_len: 64, max_frame_len: 10 };
    let mut codec = RespCodec::with_limits(limits);
    let mut buf = BytesMut::from(&b"+12345678"[..]);
    assert_eq!(codec.decode(&mut buf), Ok(None));
    buf.extend_from_slice(b"9");
    assert_eq!(codec.decode(&mut buf), Err(Error::InvalidFrame));
    assert_eq!(&buf[..], b"+123456789");
}

#[test]
fn whole_frame_above_the_frame_bound_is_too_large() {
    let limits = Limits { max_depth: 2, max_array_len: 3, max_bulk_len: 64, max_frame_len: 10 };
    let mut codec = RespCodec::with_limits(limits);
    let mut buf = BytesMut::from(&b"+1234567\r\n"[..]);
    assert_eq!(codec.decode(&mut buf), Ok(Some(RespFrame::SimpleString("1234567".to_string()))));
    let mut buf = BytesMut::from(&b"+12345678\r\n"[..]);
    assert_eq!(codec.decode(&mut buf), Err(Error::FrameTooLarge));
    assert_eq!(&buf[..], b"+12345678\r\n");
}

#[test]
fn codec_keeps_its_limits() {
    let codec = RespCodec::with_limits(small_limits());
    assert_eq!(codec.limits, small_limits());
    assert_eq!(RespCodec::new().limits, Limits::default());
    assert_eq!(RespCodec::default(), RespCodec::new());
    let standard = Limits::default();
    assert_eq!(standard.max_depth, 64);
    assert_eq!(standard.max_array_len, 1_048_576);
    assert_eq!(standard.max_bulk_len, 536_870_912);
    assert_eq!(standard.max_frame_len, 1_073_741_824);
}
