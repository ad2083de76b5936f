use pelikan_core::codec::ParseError;
use pelikan_core::resp::{compose_integer_reply, frame, Request, RequestParser};
use pelikan_core::zrem::{Message, SortedSetRemove};

#[test]
fn parser() {
    let parser = RequestParser::new();
    assert_eq!(
        parser.parse(b"ZREM z a b c\r\n").unwrap().into_inner(),
        Request::SortedSetRemove(SortedSetRemove::new(b"z", &[b"a", b"b", b"c"]))
    );

    assert_eq!(
        parser.parse(b"ZREM z a b c\r\n").unwrap().into_inner(),
        Request::SortedSetRemove(SortedSetRemove::new(b"z", &[b"a", b"b", b"c"]))
    );

    assert_eq!(
        parser
            .parse(b"*5\r\n$4\r\nZREM\r\n$1\r\nz\r\n$1\r\na\r\n$1\r\nb\r\n$1\r\nc\r\n")
            .unwrap()
            .into_inner(),
        Request::SortedSetRemove(SortedSetRemove::new(b"z", &[b"a", b"b", b"c"]))
    );
}

#[test]
fn zrem_array_consumes_whole_request() {
    let bytes = b"*5\r\n$4\r\nZREM\r\n$1\r\nz\r\n$1\r\na\r\n$1\r\nb\r\n$1\r\nc\r\n";
    let parsed = RequestParser::new().parse(bytes).unwrap();
    assert_eq!(parsed.consumed(), bytes.len());
    // every proper prefix waits for more
    for k in 0..bytes.len() {
        assert_eq!(RequestParser::new().parse(&bytes[..k]), Err(ParseError::WouldBlock));
    }
}

#[test]
fn inline_words_and_case() {
    let parsed = RequestParser::new().parse(b"zrem  key   m1 m2\r\nrest").unwrap();
    assert_eq!(parsed.consumed(), 19);
    assert_eq!(parsed.into_inner(), Request::SortedSetRemove(SortedSetRemove::new(b"key", &[b"m1", b"m2"])));
}

#[test]
fn frame_items() {
    let (items, n) = frame(b"*2\r\n$3\r\nfoo\r\n$0\r\n\r\nextra").unwrap();
    assert_eq!(n, 19);
    assert_eq!(
        items,
        vec![Message::BulkString(Some(b"foo".to_vec())), Message::BulkString(Some(Vec::new()))]
    );
}

#[test]
fn malformed_requests() {
    let p = RequestParser::new();
    assert_eq!(p.parse(b"ZREM z\r\n"), Err(ParseError::Invalid));
    assert_eq!(p.parse(b"GET z\r\n"), Err(ParseError::Invalid));
    assert_eq!(p.parse(b"*3\r\n$4\r\nZREM\r\n$1\r\nz\r\n$0\r\n\r\n"), Err(ParseError::Invalid));
    assert_eq!(p.parse(b"*x\r\n"), Err(ParseError::Invalid));
    assert_eq!(p.parse(b"*1\r\n:1\r\n"), Err(ParseError::Invalid));
    assert_eq!(p.parse(b"*1\r\n$1\r\nab\r\n"), Err(ParseError::Invalid));
    assert_eq!(p.parse(b""), Err(ParseError::WouldBlock));
    assert_eq!(p.parse(b"ZREM z a"), Err(ParseError::WouldBlock));
}

#[test]
fn zrem_compose_round_trip() {
    let r = SortedSetRemove::new(b"z", &[b"a", b"bc"]);
    let mut buf = b"..".to_vec();
    let n = r.compose(&mut buf);
    assert_eq!(&buf[2..], b"*4\r\n$4\r\nZREM\r\n$1\r\nz\r\n$1\r\na\r\n$2\r\nbc\r\n");
    assert_eq!(n, buf.len() - 2);
    let parsed = RequestParser::new().parse(&buf[2..]).unwrap();
    assert_eq!(parsed.consumed(), n);
    assert_eq!(parsed.into_inner(), Request::SortedSetRemove(r));
}

#[test]
fn integer_replies() {
    let mut buf = Vec::new();
    compose_integer_reply(3, &mut buf);
    compose_integer_reply(-12, &mut buf);
    compose_integer_reply(0, &mut buf);
    assert_eq!(buf, b":3\r\n:-12\r\n:0\r\n".to_vec());
}
