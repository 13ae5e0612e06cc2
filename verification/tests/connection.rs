use resp_codec::connection::Action;
use resp_codec::connection::Event;
use resp_codec::Connection;
use resp_codec::Error;
use resp_codec::RespFrame;

#[test]
fn frames_are_handed_on() {
    let mut connection = Connection::new();
    assert!(!connection.is_closed());
    let action = connection.handle(Event::Frame(RespFrame::Integer(1)));
    assert!(matches!(action, Action::Deliver(RespFrame::Integer(1))));
    assert!(!connection.is_closed());
}

#[test]
fn truncation_is_never_fatal() {
    let mut connection = Connection::new();
    let action = connection.handle(Event::Failure(Error::Truncated));
    assert!(matches!(action, Action::Wait));
    assert!(!connection.is_closed());
    let action = connection.handle(Event::Frame(RespFrame::Null));
    assert!(matches!(action, Action::Deliver(RespFrame::Null)));
}

#[test]
fn protocol_violations_close_the_connection() {
    let fatal = [
        Error::InvalidFrame,
        Error::InvalidInteger,
        Error::UnknownType(b'@'),
        Error::InvalidPayload,
        Error::FrameTooLarge,
    ];
    for e in fatal {
        let mut connection = Connection::new();
        match connection.handle(Event::Failure(e)) {
            Action::Close(Some(reason)) => assert_eq!(reason, e),
            other => panic!("not closed: {:?}", other),
        }
        assert!(connection.is_closed());
    }
}

#[test]
fn end_of_stream_closes_without_a_reason() {
    let mut connection = Connection::new();
    assert!(matches!(connection.handle(Event::End), Action::Close(None)));
    assert!(connection.is_closed());
}

#[test]
fn closed_connection_stays_closed() {
    let mut connection = Connection::new();
    connection.handle(Event::Failure(Error::InvalidFrame));
    assert!(matches!(
        connection.handle(Event::Frame(RespFrame::Integer(1))),
        Action::Close(None)
    ));
    assert!(matches!(connection.handle(Event::Failure(Error::Truncated)), Action::Close(None)));
    assert!(matches!(connection.handle(Event::End), Action::Close(None)));
    assert!(connection.is_closed());
}

#[test]
fn only_truncation_is_not_fatal() {
    assert!(!Error::Truncated.is_fatal());
    assert!(Error::InvalidFrame.is_fatal());
    assert!(Error::InvalidInteger.is_fatal());
    assert!(Error::UnknownType(0).is_fatal());
    assert!(Error::InvalidPayload.is_fatal());
    assert!(Error::FrameTooLarge.is_fatal());
}

#[test]
fn every_error_has_its_message() {
    assert_eq!(Error::Truncated.message(), "waiting for more data");
    assert_eq!(Error::InvalidFrame.message(), "protocol error; invalid frame format");
    assert_eq!(Error::InvalidInteger.message(), "protocol error; invalid number");
    assert_eq!(Error::UnknownType(b'@').message(), "protocol error; unknown frame type");
    assert_eq!(
        Error::InvalidPayload.message(),
        "invalid payload; text holds a line terminator"
    );
    assert_eq!(Error::FrameTooLarge.message(), "protocol error; frame too large");
}

#[test]
fn bytes_that_are_not_utf8_convert_to_invalid_frame() {
    let failure = String::from_utf8(vec![0xff, 0xfe]).unwrap_err();
    assert_eq!(Error::from(failure), Error::InvalidFrame);
}
