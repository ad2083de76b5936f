//! The memcache `CLIENT_ERROR` response, in its text and binary forms.

use vstd::prelude::*;
use vstd::string::StringSliceAdditionalSpecFns;
use crate::codec::{ParseError, push_slice, crlf_bytes, is_hspace};

verus! {

/// `CLIENT_ERROR ` in ASCII.
pub open spec fn client_error_prefix() -> Seq<u8> {
    seq![67u8, 76, 73, 69, 78, 84, 95, 69, 82, 82, 79, 82, 32]
}

/// The keyword `CLIENT_ERROR`, without the space.
pub open spec fn client_error_keyword() -> Seq<u8> {
    client_error_prefix().subrange(0, 12)
}

/// Status `InternalError` of the binary protocol.
pub const STATUS_INTERNAL_ERROR: u16 = 0x0084;

/// Magic byte of a binary response header.
pub const RESPONSE_MAGIC: u8 = 0x81;

/// Length of a binary header.
pub const HEADER_LEN: usize = 24;

/// The opcode of a binary request, echoed in the response header.
#[derive(PartialEq, Eq, Structural, Debug, Clone, Copy)]
pub struct Opcode(pub u8);

/// A `CLIENT_ERROR` reply; the message is held as opaque bytes.
#[derive(Debug, PartialEq, Eq)]
pub struct ClientError {
    pub(crate) inner: Vec<u8>,
}

/// The text form: `CLIENT_ERROR <message>\r\n`.
pub open spec fn client_error_text(msg: Seq<u8>) -> Seq<u8> {
    client_error_prefix() + msg + crlf_bytes()
}

/// The big-endian bytes of a 16-bit value.
pub open spec fn be16(v: u16) -> Seq<u8> {
    seq![(v / 256) as u8, (v % 256) as u8]
}

/// The big-endian bytes of a 32-bit value.
pub open spec fn be32(v: u32) -> Seq<u8> {
    seq![
        (v / 0x100_0000) as u8,
        ((v / 0x1_0000) % 256) as u8,
        ((v / 256) % 256) as u8,
        (v % 256) as u8,
    ]
}

/// A 24-byte binary response header without key or extras: magic, opcode,
/// key length, extras length, data type, status, total body length, opaque
/// and CAS, the multi-byte fields big-endian and the last two zero.
pub open spec fn binary_header(opcode: u8, status: u16, body_len: u32) -> Seq<u8> {
    seq![RESPONSE_MAGIC, opcode, 0u8, 0u8, 0u8, 0u8] + be16(status) + be32(body_len)
        + Seq::new(12, |i: int| 0u8)
}

impl ClientError {
    pub closed spec fn message(&self) -> Seq<u8> {
        self.inner@
    }

    /// A reply carrying the bytes of `msg`.
    pub fn new(msg: &[u8]) -> (r: Self)
        ensures
            r.message() == msg@,
    {
        ClientError { inner: vstd::slice::slice_to_vec(msg) }
    }

    pub fn is_empty(&self) -> (r: bool)
        ensures
            r == false,
    {
        false
    }

    /// The length of the text form.
    pub fn len(&self) -> (n: usize)
        requires
            client_error_text(self.message()).len() <= usize::MAX,
        ensures
            n == client_error_text(self.message()).len(),
    {
        13 + self.inner.len() + 2
    }

    /// Writes the text form and returns its length.
    pub fn compose(&self, buf: &mut Vec<u8>) -> (n: usize)
        requires
            client_error_text(self.message()).len() <= usize::MAX,
        ensures
            final(buf)@ == old(buf)@ + client_error_text(self.message()),
            n == client_error_text(self.message()).len(),
    {
        push_slice(buf, &[67u8, 76, 73, 69, 78, 84, 95, 69, 82, 82, 79, 82, 32]);
        push_slice(buf, self.inner.as_slice());
        push_slice(buf, &[13u8, 10]);
        assert(final(buf)@ =~= old(buf)@ + client_error_text(self.message()));
        13 + self.inner.len() + 2
    }

    /// Writes the binary form: an `InternalError` header whose body is the
    /// message. Returns the number of bytes written.
    pub fn write_binary_response(&self, opcode: Opcode, buffer: &mut Vec<u8>) -> (n: usize)
        requires
            self.message().len() <= u32::MAX,
            HEADER_LEN + self.message().len() <= usize::MAX,
        ensures
            final(buffer)@ == old(buffer)@ + binary_header(
                opcode.0,
                STATUS_INTERNAL_ERROR,
                self.message().len() as u32,
            ) + self.message(),
            n == HEADER_LEN + self.message().len(),
    {
        let body_len = self.inner.len() as u32;
        buffer.push(RESPONSE_MAGIC);
        buffer.push(opcode.0);
        push_slice(buffer, &[0u8, 0, 0, 0]);
        buffer.push((STATUS_INTERNAL_ERROR / 256) as u8);
        buffer.push((STATUS_INTERNAL_ERROR % 256) as u8);
        buffer.push((body_len / 0x100_0000) as u8);
        buffer.push(((body_len / 0x1_0000) % 256) as u8);
        buffer.push(((body_len / 256) % 256) as u8);
        buffer.push((body_len % 256) as u8);
        push_slice(buffer, &[0u8, 0, 0, 0, 0, 0, 0, 0, 0, 0, 0, 0]);
        push_slice(buffer, self.inner.as_slice());
        assert(final(buffer)@ =~= old(buffer)@ + binary_header(
            opcode.0,
            STATUS_INTERNAL_ERROR,
            self.message().len() as u32,
        ) + self.message());
        HEADER_LEN + self.inner.len()
    }
}

/// Number of leading spaces and tabs of `b`.
pub open spec fn leading_hspace(b: Seq<u8>, i: nat) -> nat
    decreases b.len() - i,
{
    if i < b.len() && is_hspace(b[i as int]) {
        leading_hspace(b, i + 1)
    } else {
        i
    }
}

/// The first CR or LF at or after `i`.
pub open spec fn line_end_from(b: Seq<u8>, i: nat) -> Option<nat>
    decreases b.len() - i,
{
    if i >= b.len() {
        None
    } else if b[i as int] == 13 || b[i as int] == 10 {
        Some(i)
    } else {
        line_end_from(b, i + 1)
    }
}

/// Parsing the text that follows the `CLIENT_ERROR` keyword: leading spaces
/// are skipped, the message runs to the line ending, and the line must end in
/// CRLF. The result is the message and the number of bytes taken.
pub open spec fn parse_client_error(b: Seq<u8>) -> Result<(Seq<u8>, nat), ParseError> {
    let s = leading_hspace(b, 0);
    match line_end_from(b, s) {
        None => Err(ParseError::WouldBlock),
        Some(e) => if b[e as int] == 13 && e + 1 == b.len() {
            Err(ParseError::WouldBlock)
        } else if b[e as int] == 13 && b[e + 1 as int] == 10 {
            Ok((b.subrange(s as int, e as int), e + 2))
        } else {
            Err(ParseError::Invalid)
        },
    }
}

/// Parses the text that follows the `CLIENT_ERROR` keyword.
pub fn parse(input: &[u8]) -> (r: Result<(&[u8], ClientError), ParseError>)
    ensures
        match parse_client_error(input@) {
            Ok((msg, n)) => n <= input@.len() && r is Ok
                && r->Ok_0.0@ == input@.subrange(n as int, input@.len() as int)
                && r->Ok_0.1.message() == msg,
            Err(e) => r == Err::<(&[u8], ClientError), ParseError>(e),
        },
{
    let len = input.len();
    let mut s: usize = 0;
    while s < len && (input[s] == 32 || input[s] == 9)
        invariant
            len == input@.len(),
            s <= len,
            leading_hspace(input@, s as nat) == leading_hspace(input@, 0),
        decreases len - s,
    {
        s = s + 1;
    }
    let mut e: usize = s;
    while e < len && input[e] != 13 && input[e] != 10
        invariant
            len == input@.len(),
            s <= e <= len,
            s == leading_hspace(input@, 0),
            line_end_from(input@, e as nat) == line_end_from(input@, s as nat),
        decreases len - e,
    {
        e = e + 1;
    }
    if e == len {
        return Err(ParseError::WouldBlock);
    }
    if input[e] == 13 && e + 1 == len {
        return Err(ParseError::WouldBlock);
    }
    if input[e] == 13 && input[e + 1] == 10 {
        let msg = vstd::slice::slice_subrange(input, s, e);
        let rest = vstd::slice::slice_subrange(input, e + 2, len);
        Ok((rest, ClientError::new(msg)))
    } else {
        Err(ParseError::Invalid)
    }
}

/// A memcache response; this module handles the `CLIENT_ERROR` reply.
#[derive(Debug, PartialEq, Eq)]
pub enum Response {
    ClientError(ClientError),
}

impl Response {
    pub fn client_error(msg: &str) -> (r: Self)
        ensures
            r is ClientError,
            r->ClientError_0.message() == msg.spec_bytes(),
    {
        Response::ClientError(ClientError::new(msg.as_bytes()))
    }
}

/// Parsing a response: the `CLIENT_ERROR` keyword followed by its line;
/// input that could still become the keyword waits for more.
pub open spec fn parse_response(b: Seq<u8>) -> Result<(Seq<u8>, nat), ParseError> {
    if b.len() >= 12 && b.subrange(0, 12) == client_error_keyword() {
        match parse_client_error(b.subrange(12, b.len() as int)) {
            Ok((msg, n)) => Ok((msg, n + 12)),
            Err(e) => Err(e),
        }
    } else if b.len() < 12 && b == client_error_keyword().subrange(0, b.len() as int) {
        Err(ParseError::WouldBlock)
    } else {
        Err(ParseError::Invalid)
    }
}

proof fn lemma_line_end(t: Seq<u8>, i: nat, e: nat)
    requires
        i <= e < t.len(),
        t[e as int] == 13 || t[e as int] == 10,
        forall|j: int| i <= j < e ==> #[trigger] t[j] != 13 && t[j] != 10,
    ensures
        line_end_from(t, i) == Some(e),
    decreases e - i,
{
    if i < e {
        lemma_line_end(t, i + 1, e);
    }
}

/// Round trip: parsing the text form of a `CLIENT_ERROR` whose message holds
/// no line ending and does not start with a space or tab yields that message
/// and consumes exactly the text form, whatever follows it.
pub proof fn lemma_client_error_round_trip(msg: Seq<u8>, rest: Seq<u8>)
    requires
        forall|i: int| 0 <= i < msg.len() ==> #[trigger] msg[i] != 13 && msg[i] != 10,
        msg.len() > 0 ==> !is_hspace(msg[0]),
    ensures
        parse_response(client_error_text(msg) + rest) == Ok::<(Seq<u8>, nat), ParseError>(
            (msg, client_error_text(msg).len()),
        ),
{
    let b = client_error_text(msg) + rest;
    assert(b.subrange(0, 12) =~= client_error_keyword());
    let t = b.subrange(12, b.len() as int);
    assert(t =~= seq![32u8] + msg + crlf_bytes() + rest);
    assert(leading_hspace(t, 1) == 1) by {
        if msg.len() > 0 {
            assert(t[1] == msg[0]);
        }
    }
    assert(leading_hspace(t, 0) == 1);
    let e = 1 + msg.len();
    assert forall|j: int| 1 <= j < e implies #[trigger] t[j] != 13 && t[j] != 10 by {
        assert(t[j] == msg[j - 1]);
    }
    lemma_line_end(t, 1, e);
    assert(t.subrange(1, e as int) =~= msg);
}

/// Parses one response from the front of `input`, returning the rest.
pub fn response(input: &[u8]) -> (r: Result<(&[u8], Response), ParseError>)
    ensures
        match parse_response(input@) {
            Ok((msg, n)) => r is Ok && r->Ok_0.0@ == input@.subrange(n as int, input@.len() as int)
                && r->Ok_0.1->ClientError_0.message() == msg,
            Err(e) => r == Err::<(&[u8], Response), ParseError>(e),
        },
{
    let keyword: &[u8] = &[67u8, 76, 73, 69, 78, 84, 95, 69, 82, 82, 79, 82];
    assert(keyword@ =~= client_error_keyword());
    let len = input.len();
    let m: usize = if len < 12 { len } else { 12 };
    let mut i: usize = 0;
    while i < m
        invariant
            m <= 12,
            m <= input@.len(),
            i <= m,
            keyword@ == client_error_keyword(),
            forall|k: int| 0 <= k < i ==> input@[k] == keyword@[k],
        decreases m - i,
    {
        if input[i] != keyword[i] {
            proof {
                if input@.len() >= 12 {
                    assert(input@.subrange(0, 12)[i as int] != client_error_keyword()[i as int]);
                } else {
                    assert(client_error_keyword().subrange(0, input@.len() as int)[i as int]
                        != input@[i as int]);
                }
            }
            return Err(ParseError::Invalid);
        }
        i = i + 1;
    }
    if len < 12 {
        assert(input@ =~= client_error_keyword().subrange(0, input@.len() as int));
        return Err(ParseError::WouldBlock);
    }
    assert(input@.subrange(0, 12) =~= client_error_keyword());
    let tail = vstd::slice::slice_subrange(input, 12, len);
    match parse(tail) {
        Ok((rest, e)) => {
            proof {
                let n = parse_client_error(tail@)->Ok_0.1;
                assert(tail@ =~= input@.subrange(12, input@.len() as int));
                assert(rest@ =~= input@.subrange(n + 12 as int, input@.len() as int));
            }
            Ok((rest, Response::ClientError(e)))
        }
        Err(e) => Err(e),
    }
}

} // verus!
