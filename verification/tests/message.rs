use xmip_core_transport_syslog::calendar::{
    civil, timestamp, timestamp_now, timestamp_of, LAST_SECOND,
};
use xmip_core_transport_syslog::error::{Field, ProtocolError};
use xmip_core_transport_syslog::message::{nil_if_empty, parse, Header};

fn header() -> Header {
    Header {
        facility: 20,
        severity: 5,
        timestamp: "2026-09-08T10:30:00Z".into(),
        hostname: "edge-01".into(),
        app_name: "xmip".into(),
        proc_id: "-".into(),
        msg_id: "ORDER".into(),
        structured_data: r#"[x@1 a="b\]c" d="e"][y@2]"#.into(),
    }
}

fn written(header: &Header, msg: &[u8]) -> Vec<u8> {
    xmip_core_transport_syslog::message::format(header, msg)
}

fn refused(bytes: &[u8]) -> ProtocolError {
    parse(bytes).expect_err("refused")
}

#[test]
fn a_message_round_trips_through_its_header() {
    let header = header();
    let bytes = written(&header, b"ping\r\npong");
    assert!(bytes.starts_with(b"<165>1 2026-09-08T10:30:00Z edge-01 xmip - ORDER [x@1"));
    let (back, msg) = parse(&bytes).expect("parse");
    assert_eq!(back, header);
    assert_eq!(msg, b"ping\r\npong");
    let bare = written(&header, b"");
    let (_, empty) = parse(&bare).expect("no msg");
    assert!(empty.is_empty());
}

#[test]
fn what_is_not_rfc_5424_is_refused() {
    assert!(parse(b"hello").is_err(), "no PRI");
    assert!(parse(b"<1234>1 - - - - - -").is_err(), "four digits");
    assert!(parse(b"<200>1 - - - - - -").is_err(), "over 191");
    assert!(parse(b"<34>0 - - - - - -").is_err(), "version 0");
    assert!(parse(b"<34>1 - - -").is_err(), "short");
    assert!(parse(b"<34>1 - - - - - [a").is_err(), "unclosed");
    assert!(parse(b"<34>1 - - - - - x").is_err(), "bad SD");
    assert!(parse(b"<34>1 - - - - - -x").is_err(), "no space");
    let (header, msg) = parse(b"<34>1 - - - - - - ").expect("empty msg");
    assert_eq!((header.facility, header.severity), (4, 2));
    assert!(msg.is_empty());
}

#[test]
fn the_timestamp_is_utc_iso_8601() {
    let (date, time) = civil(1_788_000_000);
    assert_eq!(date, "2026-08-29");
    assert_eq!(time, "10:40:00");
    assert_eq!(civil(0), ("1970-01-01".to_string(), "00:00:00".to_string()));
    assert!(timestamp_now().ends_with('Z'));
    assert_eq!(Header::now(1, 6, "", "").hostname, "-");
}

#[test]
fn each_refusal_says_why() {
    assert_eq!(refused(b""), ProtocolError::NoPriority);
    assert_eq!(refused(b"hello"), ProtocolError::NoPriority);
    assert_eq!(refused(b"<34"), ProtocolError::PriorityLength);
    assert_eq!(refused(b"<>1 - - - - - -"), ProtocolError::PriorityLength);
    assert_eq!(refused(b"<1234>1 - - - - - -"), ProtocolError::PriorityLength);
    assert_eq!(refused(b"<200>1 - - - - - -"), ProtocolError::PriorityRange);
    assert_eq!(refused(b"<+>1 - - - - - -"), ProtocolError::PriorityRange);
    assert_eq!(refused(b"<3x>1 - - - - - -"), ProtocolError::PriorityRange);
    assert_eq!(refused(b"<\xff\xff>1 - - - - - -"), ProtocolError::PriorityRange);
    assert_eq!(refused(b"<34>0 - - - - - -"), ProtocolError::Version);
    assert_eq!(refused(b"<34>1"), ProtocolError::Version);
    assert_eq!(refused(b"<34>1  - - - - -"), ProtocolError::Missing(Field::Timestamp));
    assert_eq!(refused(b"<34>1 - "), ProtocolError::Missing(Field::Hostname));
    assert_eq!(refused(b"<34>1 - - -"), ProtocolError::Missing(Field::AppName));
    assert_eq!(refused(b"<34>1 - - - "), ProtocolError::Missing(Field::ProcId));
    assert_eq!(refused(b"<34>1 - - - - -"), ProtocolError::Missing(Field::MsgId));
    assert_eq!(refused(b"<34>1 - - - - - [a"), ProtocolError::Unclosed);
    assert_eq!(refused(b"<34>1 - - - - - [a][b"), ProtocolError::Unclosed);
    assert_eq!(refused(b"<34>1 - - - - - x"), ProtocolError::NotStructuredData);
    assert_eq!(refused(b"<34>1 - - - - - "), ProtocolError::NotStructuredData);
    assert_eq!(refused(b"<34>1 - - - - - -x"), ProtocolError::NoSpace);
    assert_eq!(refused(b"<34>1 - - - - - [a]x"), ProtocolError::NoSpace);
}

#[test]
fn each_refusal_has_its_words() {
    assert_eq!(
        ProtocolError::NoPriority.message(),
        "a message that does not open with <PRI>"
    );
    assert_eq!(
        ProtocolError::PriorityLength.message(),
        "a PRI that is not one to three digits"
    );
    assert_eq!(ProtocolError::PriorityRange.message(), "a PRI outside 0 to 191");
    assert_eq!(ProtocolError::Version.message(), "a version that is not 1");
    assert_eq!(
        ProtocolError::Missing(Field::Timestamp).message(),
        "a header without TIMESTAMP"
    );
    assert_eq!(
        ProtocolError::Missing(Field::AppName).message(),
        "a header without APP-NAME"
    );
    assert_eq!(
        ProtocolError::Missing(Field::MsgId).message(),
        "a header without MSGID"
    );
    assert_eq!(
        ProtocolError::Unclosed.message(),
        "structured data that does not close"
    );
    assert_eq!(ProtocolError::BrokenOff.message(), "a frame that breaks off");
    assert_eq!(
        ProtocolError::OverDatagram.message(),
        "a message over what a datagram carries"
    );
    assert!(!ProtocolError::NoPriority.retryable());
}

#[test]
fn a_priority_may_have_leading_zeros_but_no_sign() {
    assert_eq!(refused(b"<+34>1 - - - - - - m"), ProtocolError::PriorityRange);
    assert_eq!(refused(b"<+34>1 - - - - - -"), ProtocolError::PriorityRange);
    assert_eq!(refused(b"<-34>1 - - - - - -"), ProtocolError::PriorityRange);
    assert_eq!(refused(b"< 34>1 - - - - - -"), ProtocolError::PriorityRange);
    let (header, msg) = parse(b"<34>1 - - - - - - m").expect("a message");
    assert_eq!((header.facility, header.severity), (4, 2));
    assert_eq!(msg, b"m");
    let (header, _) = parse(b"<007>1 - - - - - -").expect("a message");
    assert_eq!((header.facility, header.severity), (0, 7));
    let (header, _) = parse(b"<191>1 - - - - - -").expect("a message");
    assert_eq!((header.facility, header.severity), (23, 7));
}

#[test]
fn brackets_and_quotes_are_honoured() {
    let (header, msg) = parse(br#"<34>1 t h a p m [a b="]\"]"][c] x [d]"#).expect("parse");
    assert_eq!(header.structured_data, r#"[a b="]\"]"][c]"#);
    assert_eq!(msg, b"x [d]");
    let (header, _) = parse(br"<34>1 t h a p m [a\]").expect("a backslash outside quotes");
    assert_eq!(header.structured_data, r"[a\]");
    assert_eq!(refused(br#"<34>1 t h a p m [a b="]"#), ProtocolError::Unclosed);
}

#[test]
fn bytes_that_are_not_utf8_are_repaired_in_the_header_and_kept_in_msg() {
    let (header, msg) = parse(b"<34>1 t \xffh a\xc3\xa9 p m - \xff\xfe").expect("parse");
    assert_eq!(header.hostname, "\u{fffd}h");
    assert_eq!(header.app_name, "a\u{e9}");
    assert_eq!(msg, b"\xff\xfe");
    let (header, _) = parse(b"<34>1 t h a p m [x \xff]").expect("parse");
    assert_eq!(header.structured_data, "[x \u{fffd}]");
}

#[test]
fn a_message_that_is_read_is_written_again() {
    let bytes: &[u8] = br#"<165>1 2026-09-08T10:30:00Z edge-01 xmip 7 ORDER [x@1 a="b"] caf"#;
    let (header, msg) = parse(bytes).expect("parse");
    assert_eq!(written(&header, msg), bytes);
    let (header, msg) = parse(b"<034>1 - - - - - - ").expect("parse");
    let plain = written(&header, msg);
    assert_eq!(plain, b"<34>1 - - - - - -");
    assert_eq!(parse(&plain), Ok((header, &b""[..])));
}

#[test]
fn what_is_read_is_read_the_same_when_written_again() {
    let messages: [&[u8]; 6] = [
        b"<34>1 t \xffh a\xc3\xa9 p m - \xff\xfe",
        b"<034>1 \xf0\x9f\x92 \xed\xa0\x80 \xc0\x80x \x80\x80 \xe2\x82z [x \xff] ",
        b"<7>1 - - - - \xff [a b=\"\\\xff]\xfe\"][\xc3] m",
        b"<7>1 - - - - - [a b=\"\\\xf0\x9f]\"] m",
        b"<7>1 - - - - - [a b=\"\\\xff\xff\\\"]\"]",
        b"<191>1 - - - - - -",
    ];
    for bytes in messages {
        let (header, msg) = parse(bytes).expect("a message");
        let again = written(&header, msg);
        assert_eq!(parse(&again), Ok((header, msg)));
    }
}

#[test]
fn repair_keeps_ascii_and_what_stands_between() {
    let lossy = xmip_core_transport_syslog::text::lossy_text;
    for a in 0..=255u8 {
        for b in 0..=255u8 {
            let text = lossy(&[b'x', 0xe2, a, b, b'y']);
            let kept: Vec<u8> = text.bytes().filter(u8::is_ascii).collect();
            let sent: Vec<u8> = [b'x', 0xe2, a, b, b'y']
                .into_iter()
                .filter(u8::is_ascii)
                .collect();
            assert_eq!(kept, sent);
            assert!(!text.as_bytes()[1].is_ascii(), "something stands behind x");
        }
    }
}

#[test]
fn bytes_behind_a_message_go_to_msg() {
    let (header, _) = parse(b"<34>1 t h a p m [x][y]").expect("a message");
    let (same, msg) = parse(b"<34>1 t h a p m [x][y] ").expect("the space");
    assert_eq!((&same, msg), (&header, &b""[..]));
    let (same, msg) = parse(b"<34>1 t h a p m [x][y] one").expect("a MSG");
    assert_eq!((&same, msg), (&header, &b"one"[..]));
    let (same, msg) = parse(b"<34>1 t h a p m [x][y] one [z] \xff").expect("more of MSG");
    assert_eq!((&same, msg), (&header, &b"one [z] \xff"[..]));
    assert_eq!(refused(b"<34>1 t h a p m [x][y]one"), ProtocolError::NoSpace);
}

#[test]
fn severity_is_three_bits_on_the_wire() {
    let mut header = header();
    header.severity = 13;
    assert_eq!(header.priority(), 165);
    header.facility = 255;
    header.severity = 255;
    assert_eq!(header.priority(), 2047);
    header.facility = 24;
    assert_eq!(
        parse(&written(&header, b"")),
        Err(ProtocolError::PriorityRange)
    );
}

#[test]
fn msg_follows_one_space_or_nothing_does() {
    let mut header = header();
    header.structured_data = "-".into();
    assert_eq!(
        written(&header, b""),
        b"<165>1 2026-09-08T10:30:00Z edge-01 xmip - ORDER -"
    );
    assert_eq!(
        written(&header, b" m "),
        b"<165>1 2026-09-08T10:30:00Z edge-01 xmip - ORDER -  m "
    );
    let bytes = written(&header, b" m ");
    let (_, msg) = parse(&bytes).expect("parse");
    assert_eq!(msg, b" m ");
}

#[test]
fn a_header_at_a_moment_names_the_node() {
    let header = Header::at(timestamp(1_788_000_000, 42), 16, 6, "edge-01", "");
    assert_eq!(header.timestamp, "2026-08-29T10:40:00.000042Z");
    assert_eq!(
        written(&header, b"up"),
        b"<134>1 2026-08-29T10:40:00.000042Z edge-01 - - - - up"
    );
    assert_eq!(nil_if_empty(""), "-");
    assert_eq!(nil_if_empty("x"), "x");
}

#[test]
fn the_calendar_has_its_leap_days() {
    let date = |days: u64| civil(days * 86_400).0;
    assert_eq!(date(58), "1970-02-28");
    assert_eq!(date(59), "1970-03-01");
    assert_eq!(date(789), "1972-02-29");
    assert_eq!(date(11_016), "2000-02-29");
    assert_eq!(date(11_017), "2000-03-01");
    assert_eq!(date(47_540), "2100-02-28");
    assert_eq!(date(47_541), "2100-03-01");
    assert_eq!(civil(86_399).1, "23:59:59");
    assert_eq!(civil(253_402_300_799).0, "9999-12-31");
    assert_eq!(civil(253_402_300_800).0, "10000-01-01");
    assert_eq!(civil(u64::MAX).1, "07:00:15");
}

#[test]
fn the_clock_is_past_the_year_2020() {
    let now = timestamp_now();
    assert_eq!(now.len(), 27);
    assert!(now.as_str() > "2020-01-01T00:00:00.000000Z");
    assert!(!now.contains(' '));
}

#[test]
fn a_reading_of_the_clock_is_stamped() {
    assert_eq!(timestamp_of(None), "1970-01-01T00:00:00.000000Z");
    assert_eq!(timestamp_of(Some((0, 7))), "1970-01-01T00:00:00.000007Z");
    assert_eq!(
        timestamp_of(Some((1_788_863_400, 123_456))),
        "2026-09-08T10:30:00.123456Z"
    );
}

#[test]
fn texts_come_in_the_order_of_time() {
    let seconds = [
        0,
        59,
        60,
        3_599,
        3_600,
        86_399,
        86_400,
        68_169_600,
        951_782_400,
        1_788_000_000,
        LAST_SECOND - 1,
        LAST_SECOND,
    ];
    for pair in seconds.windows(2) {
        assert!(civil(pair[0]) < civil(pair[1]), "{pair:?}");
        assert!(timestamp(pair[0], 999_999) < timestamp(pair[1], 0), "{pair:?}");
        assert!(timestamp(pair[0], 9) < timestamp(pair[0], 10), "{pair:?}");
    }
    assert!(civil(LAST_SECOND) > civil(LAST_SECOND + 1), "five digits");
    assert_ne!(civil(LAST_SECOND), civil(LAST_SECOND + 1));
    assert_ne!(civil(u64::MAX), civil(u64::MAX - 1));
}
