use pelikan_core::admin::{AdminProtocol, AdminRequest, AdminResponse};
use pelikan_core::codec::ParseError;
use pelikan_core::stats::{memcache_stats, Stat};

#[test]
fn parse_incomplete() {
    let protocol = AdminProtocol::default();

    let buffers: Vec<&[u8]> = vec![b"", b"stats", b"stats\r"];
    for buffer in buffers.iter() {
        if let Err(e) = protocol.parse_request(buffer) {
            assert_eq!(e, ParseError::WouldBlock);
        } else {
            panic!("parser should not have returned a request");
        }
    }
}

#[test]
fn parse_flush_all() {
    let protocol = AdminProtocol::default();

    let parsed = protocol.parse_request(b"flush_all\r\n");
    assert!(parsed.is_ok());
    assert_eq!(parsed.unwrap().into_inner(), AdminRequest::FlushAll);
}

#[test]
fn parse_quit() {
    let protocol = AdminProtocol::default();

    let parsed = protocol.parse_request(b"quit\r\n");
    assert!(parsed.is_ok());
    assert_eq!(parsed.unwrap().into_inner(), AdminRequest::Quit);
}

#[test]
fn parse_stats() {
    let protocol = AdminProtocol::default();

    let parsed = protocol.parse_request(b"stats\r\n");
    assert!(parsed.is_ok());
    assert_eq!(parsed.unwrap().into_inner(), AdminRequest::Stats);
}

#[test]
fn parse_version() {
    let protocol = AdminProtocol::default();

    let parsed = protocol.parse_request(b"version\r\n");
    assert!(parsed.is_ok());
    assert_eq!(parsed.unwrap().into_inner(), AdminRequest::Version);
}

#[test]
fn parse_commands_with_whitespace_leading_or_trailing() {
    let protocol = AdminProtocol::default();

    let parsed = protocol.parse_request(b"version  \r\n");
    assert!(parsed.is_ok());
    assert_eq!(parsed.unwrap().into_inner(), AdminRequest::Version);

    let parsed = protocol.parse_request(b"  version\r\n");
    assert!(parsed.is_ok());
    assert_eq!(parsed.unwrap().into_inner(), AdminRequest::Version);

    let parsed = protocol.parse_request(b"  quit  \r\n");
    assert!(parsed.is_ok());
    assert_eq!(parsed.unwrap().into_inner(), AdminRequest::Quit);
}

#[test]
fn parse_ignores_after_crlf() {
    let protocol = AdminProtocol::default();

    let parsed = protocol.parse_request(b"flush_all\r\nstats");
    assert!(parsed.is_ok());
    assert_eq!(parsed.unwrap().into_inner(), AdminRequest::FlushAll);
}

#[test]
fn parse_ignores_after_crlf_consumed_length() {
    let protocol = AdminProtocol::default();
    let parsed = protocol.parse_request(b"flush_all\r\nstats").unwrap();
    assert_eq!(parsed.consumed(), 11);
    assert_eq!(parsed.into_inner(), AdminRequest::FlushAll);
}

#[test]
fn whitespace_same_request_as_bare() {
    let protocol = AdminProtocol::default();
    let a = protocol.parse_request(b"  version  \r\n").unwrap();
    let b = protocol.parse_request(b"version\r\n").unwrap();
    assert_eq!(a.value, b.value);
    assert_eq!(a.consumed(), 13);
    assert_eq!(b.consumed(), 9);
    let t = protocol.parse_request(b"\tstats\t\r\n").unwrap();
    assert_eq!(t.into_inner(), AdminRequest::Stats);
}

#[test]
fn parse_rejects_unknown_and_multi_word() {
    let protocol = AdminProtocol::default();
    assert_eq!(protocol.parse_request(b"stats slab\r\n"), Err(ParseError::Invalid));
    assert_eq!(protocol.parse_request(b"get\r\n"), Err(ParseError::Invalid));
    assert_eq!(protocol.parse_request(b"\r\n"), Err(ParseError::Invalid));
    assert_eq!(protocol.parse_request(b"STATS\r\n"), Err(ParseError::Invalid));
}

#[test]
fn compose_request_round_trip() {
    let protocol = AdminProtocol::default();
    for req in [AdminRequest::FlushAll, AdminRequest::Stats, AdminRequest::Version, AdminRequest::Quit] {
        let mut buf = Vec::new();
        let n = protocol.compose_request(&req, &mut buf);
        assert_eq!(n, buf.len());
        let parsed = protocol.parse_request(&buf).unwrap();
        assert_eq!(parsed.consumed(), n);
        assert_eq!(parsed.into_inner(), req);
        for k in 0..buf.len() {
            assert_eq!(protocol.parse_request(&buf[..k]), Err(ParseError::WouldBlock));
        }
    }
    let mut buf = Vec::new();
    protocol.compose_request(&AdminRequest::FlushAll, &mut buf);
    assert_eq!(buf, b"flush_all\r\n".to_vec());
}

#[test]
fn compose_responses() {
    let protocol = AdminProtocol::default();
    let none: Vec<Stat> = Vec::new();
    let mut buf = vec![b'x'];
    let n = protocol.compose_response(&AdminRequest::FlushAll, &AdminResponse::ok(), &none, &mut buf);
    assert_eq!(n, 4);
    assert_eq!(buf, b"xOK\r\n".to_vec());

    let mut buf = Vec::new();
    let n = AdminResponse::version("1.2.3".to_string()).compose(&none, &mut buf);
    assert_eq!(buf, b"VERSION 1.2.3\r\n".to_vec());
    assert_eq!(n, 15);

    let mut buf = Vec::new();
    let n = AdminResponse::hangup().compose(&none, &mut buf);
    assert_eq!(n, 0);
    assert!(buf.is_empty());
    assert!(AdminResponse::hangup().should_hangup());
    assert!(!AdminResponse::ok().should_hangup());
    assert!(!AdminResponse::stats().should_hangup());
}

#[test]
fn stats_are_sorted_and_terminated() {
    let stats = vec![
        Stat { name: b"zeta".to_vec(), value: 3 },
        Stat { name: b"alpha".to_vec(), value: 10 },
        Stat { name: b"gauge".to_vec(), value: -42 },
        Stat { name: b"alpha_p50".to_vec(), value: 0 },
    ];
    let text = memcache_stats(&stats);
    assert_eq!(
        String::from_utf8(text).unwrap(),
        "STAT alpha 10\r\nSTAT alpha_p50 0\r\nSTAT gauge -42\r\nSTAT zeta 3\r\nEND\r\n"
    );
}

#[test]
fn stats_empty_and_extremes() {
    assert_eq!(memcache_stats(&Vec::new()), b"END\r\n".to_vec());
    let stats = vec![
        Stat { name: b"b".to_vec(), value: i64::MIN as i128 },
        Stat { name: b"a".to_vec(), value: i64::MAX as i128 },
        Stat { name: b"a".to_vec(), value: 1 },
    ];
    let text = String::from_utf8(memcache_stats(&stats)).unwrap();
    assert_eq!(
        text,
        "STAT a 1\r\nSTAT a 9223372036854775807\r\nSTAT b -9223372036854775808\r\nEND\r\n"
    );
}

#[test]
fn stats_response_composes_report() {
    let protocol = AdminProtocol::default();
    let stats = vec![Stat { name: b"b".to_vec(), value: 2 }, Stat { name: b"a".to_vec(), value: 1 }];
    let mut buf = Vec::new();
    let n = protocol.compose_response(&AdminRequest::Stats, &AdminResponse::stats(), &stats, &mut buf);
    assert_eq!(buf, b"STAT a 1\r\nSTAT b 2\r\nEND\r\n".to_vec());
    assert_eq!(n, buf.len());
}

#[test]
fn protocol_new_parses() {
    let protocol = AdminProtocol::new();
    let parsed = protocol.parse_request(b"quit\r\nx").unwrap();
    assert_eq!(parsed.consumed(), 6);
    assert_eq!(parsed.into_inner(), AdminRequest::Quit);
}
