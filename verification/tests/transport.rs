use std::io::{BufRead, Cursor, Read};
use std::time::Duration;
use xmip_core_transport_syslog::arrival::{arrived, Arrived};
use xmip_core_transport_syslog::connection::{
    frame, octet_count, without_line_ends, Connection, Progress, Want, MAX_FRAME,
};
use xmip_core_transport_syslog::error::ProtocolError;
use xmip_core_transport_syslog::message::parse;
use xmip_core_transport_syslog::node::{Carrier, SyslogTransport, MAX_DATAGRAM};
use xmip_core_transport_syslog::session::{Gathering, Session};

fn node() -> SyslogTransport {
    SyslogTransport::new("127.0.0.1:0", "edge-01", "xmip").timing_out_after(Duration::from_secs(2))
}

/// What a read takes from the stream.
fn read(want: Want, stream: &mut Cursor<Vec<u8>>) -> Vec<u8> {
    let mut bytes = Vec::new();
    match want {
        Want::Peek => bytes.extend(stream.fill_buf().expect("memory").first()),
        Want::Until(byte) => {
            stream.read_until(byte, &mut bytes).expect("memory");
        }
        Want::Exactly(count) => {
            stream
                .take(count as u64)
                .read_to_end(&mut bytes)
                .expect("memory");
        }
    }
    bytes
}

/// The next message, that the sender closed, or a refusal.
fn next(connection: &mut Connection, stream: &mut Cursor<Vec<u8>>) -> Progress {
    loop {
        let bytes = read(connection.wants(), stream);
        match connection.next_message(&bytes) {
            Progress::Reading => {}
            done => return done,
        }
    }
}

fn message(progress: Progress) -> Arrived {
    match progress {
        Progress::Message(message) => message,
        other => panic!("no message: {other:?}"),
    }
}

#[test]
fn a_datagram_carries_the_payload_and_the_header_is_the_origin() {
    let address = "127.0.0.1:5514";
    let sent = node()
        .send(&format!("syslog://{address}"), b"ping\r\npong")
        .expect("sending");
    assert_eq!((sent.carrier, sent.address.as_str()), (Carrier::Udp, address));
    let arrival = arrived("127.0.0.1:40000", &sent.bytes).expect("receiving");
    assert_eq!(arrival.bytes, b"ping\r\npong");
    assert!(arrival
        .origin_uri
        .contains("facility=16&severity=6&host=edge-01&app=xmip"));
    let sent = node()
        .send(address, b"<13>1 - other app - - - already")
        .expect("as-is");
    assert_eq!((sent.carrier, sent.address.as_str()), (Carrier::Udp, address));
    let arrival = arrived("127.0.0.1:40000", &sent.bytes).expect("receiving");
    assert_eq!(arrival.bytes, b"already");
    assert!(arrival.origin_uri.contains("severity=5&host=other&app=app"));
}

#[test]
fn a_tcp_sender_frames_by_octet_count_or_by_line() {
    let address = "127.0.0.1:5514";
    let near = node().over(Carrier::Tcp);
    let first = near.send(address, b"counted\nwith newline").expect("sending");
    let second = near
        .send(&format!("syslog+tcp://{address}"), b"")
        .expect("sending");
    assert_eq!((first.carrier, first.address.as_str()), (Carrier::Tcp, address));
    assert_eq!((second.carrier, second.address.as_str()), (Carrier::Tcp, address));

    let mut connection = Connection::new("127.0.0.1:40000");
    let mut stream = Cursor::new(first.bytes);
    let first = message(next(&mut connection, &mut stream));
    assert_eq!(first.bytes, b"counted\nwith newline");
    assert_eq!(next(&mut connection, &mut stream), Progress::Closed);
    let mut connection = Connection::new("127.0.0.1:40000");
    let mut stream = Cursor::new(second.bytes);
    let second = message(next(&mut connection, &mut stream));
    assert!(second.bytes.is_empty());

    let mut stream = Cursor::new(
        b"<34>1 - - - - - - line one\n<34>1 - - - - - - line two\r\n".to_vec(),
    );
    let mut connection = Connection::new("127.0.0.1:40000");
    let one = message(next(&mut connection, &mut stream));
    let two = message(next(&mut connection, &mut stream));
    assert_eq!(one.bytes, b"line one");
    assert_eq!(two.bytes, b"line two");
    assert_eq!(next(&mut connection, &mut stream), Progress::Closed);
}

#[test]
fn what_is_not_syslog_is_refused_and_nothing_is_claimed() {
    let mut stream = Cursor::new(b"x hello\n".to_vec());
    let mut connection = Connection::new("127.0.0.1:40000");
    match next(&mut connection, &mut stream) {
        Progress::Refused(error) => assert!(!error.retryable()),
        other => panic!("not refused: {other:?}"),
    }
    assert_eq!(node().name(), "syslog");
}

#[test]
fn the_origin_is_written_out() {
    let arrival = arrived("10.0.0.1:514", b"<191>1 t h a p m - msg").expect("arrived");
    assert_eq!(
        arrival.origin_uri,
        "syslog://10.0.0.1:514?facility=23&severity=7&host=h&app=a&msgid=m"
    );
    assert_eq!(arrival.bytes, b"msg");
    assert_eq!(arrived("p", b"msg"), Err(ProtocolError::NoPriority));
}

#[test]
fn a_node_holds_what_it_was_told() {
    let far_end = SyslogTransport::new(String::from("0.0.0.0:514"), "h", "a");
    assert_eq!(far_end.bind(), "0.0.0.0:514");
    assert_eq!(far_end.carrier(), Carrier::Udp);
    assert_eq!(far_end.timeout(), None);
    let far_end = far_end
        .over(Carrier::Tcp)
        .timing_out_after(Duration::from_millis(5));
    assert_eq!(far_end.carrier(), Carrier::Tcp);
    assert_eq!(far_end.timeout(), Some(Duration::from_millis(5)));
}

#[test]
fn a_wrapped_payload_is_worded_exactly() {
    let stamp = || "2026-09-08T10:30:00.123456Z".to_string();
    assert_eq!(
        node().compose_at(stamp(), b"ping"),
        b"<134>1 2026-09-08T10:30:00.123456Z edge-01 xmip - - - ping"
    );
    assert_eq!(
        node().as_priority(4, 10).compose_at(stamp(), b""),
        b"<34>1 2026-09-08T10:30:00.123456Z edge-01 xmip - - -"
    );
    let nameless = SyslogTransport::new("b", "", "");
    assert_eq!(
        nameless.compose_at(stamp(), b"<1"),
        b"<134>1 2026-09-08T10:30:00.123456Z - - - - - <1"
    );
}

#[test]
fn composing_again_changes_nothing() {
    let once = node().compose(b"payload");
    assert!(parse(&once).is_ok());
    assert_eq!(node().as_priority(1, 1).compose(&once), once);
    let unfit = node().as_priority(24, 0).compose(b"payload");
    assert_eq!(parse(&unfit), Err(ProtocolError::PriorityRange));
    let unfit = node().as_priority(125, 0).compose(b"payload");
    assert_eq!(parse(&unfit), Err(ProtocolError::PriorityLength));
}

#[test]
fn a_target_names_carrier_and_address() {
    let tcp = node().over(Carrier::Tcp);
    assert_eq!(node().route("syslog://h:514"), (Carrier::Udp, "h:514"));
    assert_eq!(tcp.route("syslog://h:514"), (Carrier::Udp, "h:514"));
    assert_eq!(node().route("syslog+tcp://h:514"), (Carrier::Tcp, "h:514"));
    assert_eq!(node().route("h:514"), (Carrier::Udp, "h:514"));
    assert_eq!(tcp.route("h:514"), (Carrier::Tcp, "h:514"));
    assert_eq!(node().route("syslog:/"), (Carrier::Udp, "syslog:/"));
    assert_eq!(node().route("syslog://"), (Carrier::Udp, ""));
    assert_eq!(node().route("syslog://\u{e9}"), (Carrier::Udp, "\u{e9}"));
}

#[test]
fn a_datagram_has_its_limit_and_a_frame_has_none() {
    let largest = vec![0u8; MAX_DATAGRAM];
    let sent = node().outgoing("h:1", largest.clone()).expect("fits");
    assert_eq!(sent.bytes, largest);
    let over = vec![0u8; MAX_DATAGRAM + 1];
    assert_eq!(
        node().outgoing("h:1", over.clone()),
        Err(ProtocolError::OverDatagram)
    );
    let sent = node().outgoing("syslog+tcp://h:1", over).expect("framed");
    assert!(sent.bytes.starts_with(b"65536 \0"));
    assert_eq!(sent.bytes.len(), MAX_DATAGRAM + 1 + 6);
    assert_eq!(
        node().send("h:1", &vec![b'x'; MAX_DATAGRAM]),
        Err(ProtocolError::OverDatagram)
    );
}

#[test]
fn a_count_is_read_or_refused() {
    assert_eq!(octet_count(b"12 "), Ok(12));
    assert_eq!(octet_count(b"012"), Ok(12));
    assert_eq!(octet_count(b"+12 "), Err(ProtocolError::CountNotANumber));
    assert_eq!(octet_count(b"12\t "), Ok(12));
    assert_eq!(octet_count("\u{2003}12\u{3000} ".as_bytes()), Ok(12));
    assert_eq!(octet_count(b"16777216 "), Ok(MAX_FRAME));
    assert_eq!(octet_count(b"16777217 "), Err(ProtocolError::CountTooLarge));
    assert_eq!(
        octet_count(b"99999999999999999999999 "),
        Err(ProtocolError::CountNotANumber)
    );
    assert_eq!(octet_count(b"1x "), Err(ProtocolError::CountNotANumber));
    assert_eq!(octet_count(b" "), Err(ProtocolError::CountNotANumber));
    assert_eq!(octet_count(b"1\xff "), Err(ProtocolError::CountNotANumber));
}

#[test]
fn a_line_loses_its_ends() {
    assert_eq!(without_line_ends(b"a\r\n"), b"a");
    assert_eq!(without_line_ends(b"a\n\r\r\n"), b"a");
    assert_eq!(without_line_ends(b"\n"), b"");
    assert_eq!(without_line_ends(b"a\nb"), b"a\nb");
}

#[test]
fn a_frame_counts_its_octets() {
    assert_eq!(frame(b""), b"0 ");
    assert_eq!(frame(b"hello world"), b"11 hello world");
}

#[test]
fn a_frame_that_breaks_off_is_refused() {
    let whole = frame(b"<34>1 - - - - - - message");
    for kept in 1..whole.len() {
        let mut connection = Connection::new("p");
        let mut stream = Cursor::new(whole[..kept].to_vec());
        assert_eq!(
            next(&mut connection, &mut stream),
            Progress::Refused(ProtocolError::BrokenOff)
        );
        assert_eq!(connection.wants(), Want::Peek);
    }
    let mut connection = Connection::new("p");
    let mut stream = Cursor::new(b"0".to_vec());
    assert_eq!(
        next(&mut connection, &mut stream),
        Progress::Refused(ProtocolError::NoPriority)
    );
}

#[test]
fn a_read_that_is_not_as_long_as_counted_is_refused() {
    let message = b"<34>1 - - - - - - m";
    let mut connection = Connection::new("p");
    assert_eq!(connection.next_message(b"1"), Progress::Reading);
    assert_eq!(connection.next_message(b"18 "), Progress::Reading);
    assert_eq!(connection.wants(), Want::Exactly(18));
    assert_eq!(
        connection.next_message(message),
        Progress::Refused(ProtocolError::BrokenOff)
    );
}

#[test]
fn what_is_given_up_is_read_anew() {
    let mut connection = Connection::new("p");
    assert_eq!(connection.next_message(b"3"), Progress::Reading);
    assert_eq!(connection.next_message(b"30 "), Progress::Reading);
    assert_eq!(connection.wants(), Want::Exactly(30));
    connection.abandon();
    assert_eq!(connection.wants(), Want::Peek);
}

#[test]
fn a_refused_count_leaves_what_follows() {
    let mut connection = Connection::new("p");
    let mut stream = Cursor::new(b"16777217 <34>1 - - - - - - next\n".to_vec());
    assert_eq!(
        next(&mut connection, &mut stream),
        Progress::Refused(ProtocolError::CountTooLarge)
    );
    assert_eq!(message(next(&mut connection, &mut stream)).bytes, b"next");
    assert_eq!(next(&mut connection, &mut stream), Progress::Closed);
    let mut stream = Cursor::new(b"99999999999999999999999 <34>1 - - - - - - next\n".to_vec());
    assert_eq!(
        next(&mut connection, &mut stream),
        Progress::Refused(ProtocolError::CountNotANumber)
    );
    assert_eq!(message(next(&mut connection, &mut stream)).bytes, b"next");
}

#[test]
fn a_line_that_breaks_off_is_refused() {
    let whole = b"<34>1 - - - - - - cut\r\n";
    for kept in 1..whole.len() {
        let mut connection = Connection::new("p");
        let mut stream = Cursor::new(whole[..kept].to_vec());
        assert_eq!(
            next(&mut connection, &mut stream),
            Progress::Refused(ProtocolError::BrokenOff)
        );
        assert_eq!(next(&mut connection, &mut stream), Progress::Closed);
    }
    let mut connection = Connection::new("p");
    let mut stream = Cursor::new(whole.to_vec());
    assert_eq!(message(next(&mut connection, &mut stream)).bytes, b"cut");
}

#[test]
fn a_line_is_taken_without_all_its_ends() {
    let mut connection = Connection::new("p");
    let mut stream = Cursor::new(b"<34>1 - - - - - - m\r\r\r\n<34>1 - - - - - - n\r\n".to_vec());
    assert_eq!(message(next(&mut connection, &mut stream)).bytes, b"m");
    assert_eq!(message(next(&mut connection, &mut stream)).bytes, b"n");
    let mut stream = Cursor::new(b"\r\n<34>1 - - - - - - n\n".to_vec());
    assert_eq!(
        next(&mut connection, &mut stream),
        Progress::Refused(ProtocolError::NoPriority)
    );
    assert_eq!(message(next(&mut connection, &mut stream)).bytes, b"n");
}

fn gather(stream: &[u8]) -> (Gathering, Vec<Arrived>) {
    let mut session = Session::new("peer:1");
    let mut stream = Cursor::new(stream.to_vec());
    loop {
        let bytes = read(session.wants(), &mut stream);
        match session.receive(&bytes) {
            Gathering::Reading => {}
            done => return (done, session.into_arrived()),
        }
    }
}

#[test]
fn a_session_gathers_until_the_sender_closes() {
    let mut stream = frame(b"<34>1 - h a - m - one");
    stream.extend(frame(b"<34>1 - h a - m - two\n"));
    stream.extend(b"<34>1 - h a - m - three\n");
    let (end, arrived) = gather(&stream);
    assert_eq!(end, Gathering::Finished);
    let bytes: Vec<&[u8]> = arrived.iter().map(|a| a.bytes.as_slice()).collect();
    assert_eq!(bytes, [&b"one"[..], b"two\n", b"three"]);
    assert_eq!(
        arrived[0].origin_uri,
        "syslog://peer:1?facility=4&severity=2&host=h&app=a&msgid=m"
    );
}

#[test]
fn a_session_ends_on_what_is_refused() {
    let mut stream = frame(b"<34>1 - h a - m - one");
    stream.extend(b"nonsense\n");
    stream.extend(frame(b"<34>1 - h a - m - two"));
    let (end, arrived) = gather(&stream);
    assert_eq!(end, Gathering::Refused(ProtocolError::NoPriority));
    assert_eq!(arrived.len(), 1);
    assert_eq!(gather(b"").0, Gathering::Finished);
    let mut stream = frame(b"<34>1 - h a - m - one");
    stream.extend(b"<34>1 - h a - m - cut");
    let (end, arrived) = gather(&stream);
    assert_eq!(end, Gathering::Refused(ProtocolError::BrokenOff));
    assert_eq!(arrived.len(), 1);
    assert_eq!(gather(b"5 ab").0, Gathering::Refused(ProtocolError::BrokenOff));
    assert_eq!(gather(b"0 ").0, Gathering::Refused(ProtocolError::NoPriority));
}

#[test]
fn white_space_is_what_std_trims() {
    for c in '\0'..=char::MAX {
        let text = format!("1{c}");
        let expected: Option<usize> = text.trim().parse().ok();
        assert_eq!(octet_count(text.as_bytes()).ok(), expected, "{c:?}");
    }
}
