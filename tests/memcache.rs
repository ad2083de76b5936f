use pelikan_core::codec::ParseError;
use pelikan_core::memcache::{parse as parse_client_error, response, ClientError, Opcode, Response};

#[test]
fn parse() {
    assert_eq!(
        response(b"CLIENT_ERROR Error message\r\n"),
        Ok((&b""[..], Response::client_error("Error message"),))
    );

    assert_eq!(
        response(b"CLIENT_ERROR\r\n"),
        Ok((&b""[..], Response::client_error(""),))
    );
}

#[test]
fn client_error_text_form() {
    let e = ClientError::new(b"bad data chunk");
    let mut buf = Vec::new();
    let n = e.compose(&mut buf);
    assert_eq!(buf, b"CLIENT_ERROR bad data chunk\r\n".to_vec());
    assert_eq!(n, buf.len());
    assert_eq!(e.len(), 29);
    assert!(!e.is_empty());
    let (rest, parsed) = response(&buf).unwrap();
    assert!(rest.is_empty());
    assert_eq!(parsed, Response::ClientError(e));
}

#[test]
fn client_error_leaves_following_bytes() {
    let (rest, parsed) = response(b"CLIENT_ERROR  oops\r\nEND\r\n").unwrap();
    assert_eq!(rest, b"END\r\n");
    assert_eq!(parsed, Response::client_error("oops"));
    let (rest, e) = parse_client_error(b"\t x y\r\nz").unwrap();
    assert_eq!(rest, b"z");
    assert_eq!(e, ClientError::new(b"x y"));
}

#[test]
fn client_error_partial_and_invalid() {
    assert_eq!(response(b"CLIENT_ERROR oops"), Err(ParseError::WouldBlock));
    assert_eq!(response(b"CLIENT_ERROR oops\r"), Err(ParseError::WouldBlock));
    assert_eq!(response(b"CLIENT_"), Err(ParseError::WouldBlock));
    assert_eq!(response(b""), Err(ParseError::WouldBlock));
    assert_eq!(response(b"CLIENT_ERROR oops\n"), Err(ParseError::Invalid));
    assert_eq!(response(b"CLIENT_ERROR oops\rx"), Err(ParseError::Invalid));
    assert_eq!(response(b"SERVER_ERROR x\r\n"), Err(ParseError::Invalid));
}

#[test]
fn client_error_binary_form() {
    let e = ClientError::new(b"oops");
    let mut buf = Vec::new();
    let n = e.write_binary_response(Opcode(0x01), &mut buf);
    assert_eq!(n, 28);
    let mut expected = vec![0x81, 0x01, 0, 0, 0, 0, 0x00, 0x84, 0, 0, 0, 4];
    expected.extend_from_slice(&[0; 12]);
    expected.extend_from_slice(b"oops");
    assert_eq!(buf, expected);
}
