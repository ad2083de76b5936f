//! The administrative line protocol: `flush_all`, `stats`, `quit` and
//! `version`, each a single CRLF-terminated line.

use vstd::prelude::*;
use crate::codec::{
    Codec, ParseError, ParseOk, has_crlf_at, first_crlf, find_crlf, is_hspace, trim, push_slice, crlf_bytes,
    lemma_first_crlf_at, lemma_crlf_from, lemma_trim_front_skips, lemma_trim_back_skips, lemma_trim_fixed,
};
use crate::stats::{Stat, memcache_stats, stats_text};

verus! {

/// A request of the admin protocol.
#[derive(PartialEq, Eq, Structural, Debug, Clone, Copy)]
pub enum AdminRequest {
    FlushAll,
    Stats,
    Version,
    Quit,
}

/// The verb that names each request on the wire, in ASCII: `flush_all`,
/// `stats`, `version`, `quit`.
pub open spec fn verb(r: AdminRequest) -> Seq<u8> {
    match r {
        AdminRequest::FlushAll => seq![102u8, 108u8, 117u8, 115u8, 104u8, 95u8, 97u8, 108u8, 108u8],
        AdminRequest::Stats => seq![115u8, 116u8, 97u8, 116u8, 115u8],
        AdminRequest::Version => seq![118u8, 101u8, 114u8, 115u8, 105u8, 111u8, 110u8],
        AdminRequest::Quit => seq![113u8, 117u8, 105u8, 116u8],
    }
}

/// The request whose verb is `t`, if any.
pub open spec fn request_of_verb(t: Seq<u8>) -> Option<AdminRequest> {
    if t == verb(AdminRequest::FlushAll) {
        Some(AdminRequest::FlushAll)
    } else if t == verb(AdminRequest::Stats) {
        Some(AdminRequest::Stats)
    } else if t == verb(AdminRequest::Version) {
        Some(AdminRequest::Version)
    } else if t == verb(AdminRequest::Quit) {
        Some(AdminRequest::Quit)
    } else {
        None
    }
}

/// The canonical encoding of a request: its verb and CRLF.
pub open spec fn request_bytes(r: AdminRequest) -> Seq<u8> {
    verb(r) + crlf_bytes()
}

/// What parsing `b` yields: `WouldBlock` without a CRLF; otherwise the request
/// named by the trimmed text before the first CRLF, consuming through that
/// CRLF, or `Invalid` when that text is no known verb (a text holding an inner
/// space is never one).
pub open spec fn parse_admin(b: Seq<u8>) -> Result<(AdminRequest, nat), ParseError> {
    match first_crlf(b) {
        None => Err(ParseError::WouldBlock),
        Some(e) => match request_of_verb(trim(b.subrange(0, e as int))) {
            Some(r) => Ok((r, e + 2)),
            None => Err(ParseError::Invalid),
        },
    }
}

/// The codec of the admin protocol; it holds no state.
#[derive(Default, Copy, Clone)]
pub struct AdminProtocol {
    _unused: (),
}

fn verb_slice(r: AdminRequest) -> (v: &'static [u8])
    ensures
        v@ == verb(r),
{
    let v: &'static [u8] = match r {
        AdminRequest::FlushAll => &[102u8, 108, 117, 115, 104, 95, 97, 108, 108],
        AdminRequest::Stats => &[115u8, 116, 97, 116, 115],
        AdminRequest::Version => &[118u8, 101, 114, 115, 105, 111, 110],
        AdminRequest::Quit => &[113u8, 117, 105, 116],
    };
    proof {
        assert(v@ =~= verb(r));
    }
    v
}

fn slices_equal(a: &[u8], b: &[u8]) -> (r: bool)
    ensures
        r == (a@ == b@),
{
    if a.len() != b.len() {
        return false;
    }
    let mut i: usize = 0;
    while i < a.len()
        invariant
            a@.len() == b@.len(),
            0 <= i <= a@.len(),
            forall|k: int| 0 <= k < i ==> a@[k] == b@[k],
        decreases a@.len() - i,
    {
        if a[i] != b[i] {
            return false;
        }
        i = i + 1;
    }
    assert(a@ =~= b@);
    true
}

fn match_verb(t: &[u8]) -> (r: Option<AdminRequest>)
    ensures
        r == request_of_verb(t@),
{
    if slices_equal(t, verb_slice(AdminRequest::FlushAll)) {
        Some(AdminRequest::FlushAll)
    } else if slices_equal(t, verb_slice(AdminRequest::Stats)) {
        Some(AdminRequest::Stats)
    } else if slices_equal(t, verb_slice(AdminRequest::Version)) {
        Some(AdminRequest::Version)
    } else if slices_equal(t, verb_slice(AdminRequest::Quit)) {
        Some(AdminRequest::Quit)
    } else {
        None
    }
}

impl AdminProtocol {
    pub fn new() -> Self {
        AdminProtocol { _unused: () }
    }

    /// Parses one request from the front of `buffer`.
    pub fn parse_request(&self, buffer: &[u8]) -> (r: Result<ParseOk<AdminRequest>, ParseError>)
        ensures
            match parse_admin(buffer@) {
                Ok((req, n)) => n <= buffer@.len() && r == Ok::<ParseOk<AdminRequest>, ParseError>(
                    (ParseOk { value: req, consumed: n as usize }),
                ),
                Err(e) => r == Err::<ParseOk<AdminRequest>, ParseError>(e),
            },
    {
        let len = buffer.len();
        match find_crlf(buffer) {
            None => Err(ParseError::WouldBlock),
            Some(command_end) => {
                let command = vstd::slice::slice_subrange(buffer, 0, command_end);
                let trimmed = crate::codec::trim_slice(command);
                // a command of more than one word is reserved for later verbs
                let mut i: usize = 0;
                let mut has_space = false;
                while i < trimmed.len()
                    invariant
                        0 <= i <= trimmed@.len(),
                        has_space == exists|k: int| 0 <= k < i && trimmed@[k] == 32u8,
                    decreases trimmed@.len() - i,
                {
                    if trimmed[i] == 32u8 {
                        has_space = true;
                    }
                    i = i + 1;
                }
                if has_space {
                    proof {
                        let k = choose|k: int| 0 <= k < trimmed@.len() && trimmed@[k] == 32u8;
                        lemma_spaced_is_no_verb(trimmed@, k);
                        assert(trimmed@ == trim(buffer@.subrange(0, command_end as int)));
                    }
                    return Err(ParseError::Invalid);
                }
                match match_verb(trimmed) {
                    Some(req) => {
                        assert(command_end + 2 <= len);
                        Ok(ParseOk::new(req, command_end + 2))
                    }
                    None => Err(ParseError::Invalid),
                }
            }
        }
    }

    /// Writes the canonical encoding of `request` to `buffer` and returns its length.
    pub fn compose_request(&self, request: &AdminRequest, buffer: &mut Vec<u8>) -> (n: usize)
        ensures
            final(buffer)@ == old(buffer)@ + request_bytes(*request),
            n == request_bytes(*request).len(),
    {
        let v = verb_slice(*request);
        push_slice(buffer, v);
        push_slice(buffer, &[13u8, 10]);
        assert(final(buffer)@ =~= old(buffer)@ + request_bytes(*request));
        v.len() + 2
    }

    /// Writes the encoding of `response` to `buffer` and returns its length;
    /// `stats` holds the metric readings that a `Stats` response reports.
    pub fn compose_response(
        &self,
        _request: &AdminRequest,
        response: &AdminResponse,
        stats: &Vec<Stat>,
        buffer: &mut Vec<u8>,
    ) -> (n: usize)
        ensures
            final(buffer)@ == old(buffer)@ + response_bytes(*response, stats@),
            n == response_bytes(*response, stats@).len(),
    {
        response.compose(stats, buffer)
    }
}

impl Codec for AdminProtocol {
    type Request = AdminRequest;
    type Response = AdminResponse;
    type RequestView = AdminRequest;

    open spec fn request_view(r: AdminRequest) -> AdminRequest {
        r
    }

    open spec fn parse_spec(b: Seq<u8>) -> Result<(AdminRequest, nat), ParseError> {
        parse_admin(b)
    }

    open spec fn response_spec(resp: AdminResponse, stats: Seq<Stat>) -> Seq<u8> {
        response_bytes(resp, stats)
    }

    open spec fn hangup_spec(resp: AdminResponse) -> bool {
        resp.should_hangup_spec()
    }

    fn decode(&self, buffer: &[u8]) -> (r: Result<ParseOk<AdminRequest>, ParseError>) {
        let len = buffer.len();
        self.parse_request(buffer)
    }

    fn encode_response(
        &self,
        request: &AdminRequest,
        response: &AdminResponse,
        stats: &Vec<Stat>,
        buffer: &mut Vec<u8>,
    ) -> (n: usize) {
        self.compose_response(request, response, stats, buffer)
    }

    fn hangs_up(response: &AdminResponse) -> (r: bool) {
        response.should_hangup()
    }
}

/// A space inside a command means it is none of the one-word verbs.
proof fn lemma_spaced_is_no_verb(t: Seq<u8>, k: int)
    requires
        0 <= k < t.len(),
        t[k] == 32u8,
    ensures
        request_of_verb(t) is None,
{
    if t == verb(AdminRequest::FlushAll) || t == verb(AdminRequest::Stats)
        || t == verb(AdminRequest::Version) || t == verb(AdminRequest::Quit) {
        assert(t[k] != 32u8);
    }
}

/// A verb holds no CR, LF, space or tab, and names its request.
proof fn lemma_verb_facts(r: AdminRequest)
    ensures
        verb(r).len() > 0,
        forall|i: int| 0 <= i < verb(r).len() ==> #[trigger] verb(r)[i] != 13 && verb(r)[i] != 10
            && !is_hspace(verb(r)[i]),
        request_of_verb(verb(r)) == Some(r),
{
    assert(verb(AdminRequest::FlushAll).len() == 9);
    assert(verb(AdminRequest::Stats).len() == 5);
    assert(verb(AdminRequest::Version).len() == 7);
    assert(verb(AdminRequest::Quit).len() == 4);
}

/// A command line made of `pre`, a verb, `post` and CRLF, followed by any
/// bytes, is parsed as that verb's request, consuming through the CRLF.
proof fn lemma_parse_line(r: AdminRequest, pre: Seq<u8>, post: Seq<u8>, rest: Seq<u8>)
    requires
        forall|i: int| 0 <= i < pre.len() ==> is_hspace(#[trigger] pre[i]),
        forall|i: int| 0 <= i < post.len() ==> is_hspace(#[trigger] post[i]),
    ensures
        parse_admin(pre + verb(r) + post + crlf_bytes() + rest)
            == Ok::<(AdminRequest, nat), ParseError>((r, pre.len() + verb(r).len() + post.len() + 2)),
{
    lemma_verb_facts(r);
    let line = pre + verb(r) + post;
    let b = line + crlf_bytes() + rest;
    assert(b =~= pre + verb(r) + post + crlf_bytes() + rest);
    let e = line.len();
    assert(has_crlf_at(b, e as int));
    assert forall|j: int| 0 <= j < e implies !has_crlf_at(b, j) by {
        assert(b[j] == line[j]);
        if j < pre.len() {
            assert(line[j] == pre[j]);
        } else if j < pre.len() + verb(r).len() {
            assert(line[j] == verb(r)[j - pre.len()]);
        } else {
            assert(line[j] == post[j - pre.len() - verb(r).len()]);
        }
    }
    lemma_first_crlf_at(b, e);
    assert(b.subrange(0, e as int) =~= line);
    lemma_trim_front_skips(pre, verb(r) + post);
    assert(pre + (verb(r) + post) =~= line);
    lemma_trim_back_skips(verb(r), post);
    lemma_trim_fixed(verb(r));
    assert(verb(r).last() == verb(r)[verb(r).len() - 1]);
    assert(trim(line) == verb(r));
}

/// Round trip: parsing the composed encoding of any request, whatever bytes
/// follow it, yields that request and consumes exactly the encoding.
pub proof fn lemma_request_round_trip(r: AdminRequest, rest: Seq<u8>)
    ensures
        parse_admin(request_bytes(r) + rest)
            == Ok::<(AdminRequest, nat), ParseError>((r, request_bytes(r).len())),
{
    lemma_parse_line(r, Seq::empty(), Seq::empty(), rest);
    assert(Seq::<u8>::empty() + verb(r) + Seq::<u8>::empty() + crlf_bytes() + rest
        =~= request_bytes(r) + rest);
}

/// Partial input: every proper prefix of a request's encoding asks for more
/// bytes.
pub proof fn lemma_request_prefix_would_block(r: AdminRequest, k: int)
    requires
        0 <= k < request_bytes(r).len(),
    ensures
        parse_admin(request_bytes(r).subrange(0, k)) == Err::<(AdminRequest, nat), ParseError>(
            ParseError::WouldBlock,
        ),
{
    lemma_verb_facts(r);
    let p = request_bytes(r).subrange(0, k);
    lemma_crlf_from(p, 0);
    match first_crlf(p) {
        Some(e) => {
            assert(has_crlf_at(p, e as int));
            assert(p[e as int] == request_bytes(r)[e as int]);
            if e < verb(r).len() {
                assert(request_bytes(r)[e as int] == verb(r)[e as int]);
            }
        },
        None => {},
    }
}

/// Whitespace tolerance: spaces and tabs around the verb do not change the
/// request, and the whole line is consumed.
pub proof fn lemma_whitespace_tolerance(r: AdminRequest, pre: Seq<u8>, post: Seq<u8>)
    requires
        forall|i: int| 0 <= i < pre.len() ==> is_hspace(#[trigger] pre[i]),
        forall|i: int| 0 <= i < post.len() ==> is_hspace(#[trigger] post[i]),
    ensures
        parse_admin(pre + verb(r) + post + crlf_bytes())
            == Ok::<(AdminRequest, nat), ParseError>((r, pre.len() + verb(r).len() + post.len() + 2)),
{
    lemma_parse_line(r, pre, post, Seq::empty());
    assert(pre + verb(r) + post + crlf_bytes() + Seq::<u8>::empty() =~= pre + verb(r) + post
        + crlf_bytes());
}

/// The `VERSION` reply.
pub struct Version {
    version: String,
}

/// What composing a `Version` writes: `VERSION `, the text, CRLF.
pub open spec fn version_bytes(v: Seq<char>) -> Seq<u8> {
    seq![86u8, 69u8, 82u8, 83u8, 73u8, 79u8, 78u8, 32u8] + vstd::utf8::encode_utf8(v) + crlf_bytes()
}

impl Version {
    pub closed spec fn text(&self) -> Seq<char> {
        self.version@
    }

    pub fn compose(&self, buf: &mut Vec<u8>) -> (n: usize)
        ensures
            final(buf)@ == old(buf)@ + version_bytes(self.text()),
            n == version_bytes(self.text()).len(),
    {
        let before = buf.len();
        let text = self.version.as_str().as_bytes();
        push_slice(buf, &[86u8, 69, 82, 83, 73, 79, 78, 32]);
        push_slice(buf, text);
        push_slice(buf, &[13u8, 10]);
        assert(final(buf)@ =~= old(buf)@ + version_bytes(self.text()));
        buf.len() - before
    }
}

/// A response of the admin protocol.
pub enum AdminResponse {
    Hangup,
    Okay,
    Stats,
    Version(Version),
}

/// What composing a response writes; `stats` are the readings a `Stats`
/// response reports.
pub open spec fn response_bytes(r: AdminResponse, stats: Seq<Stat>) -> Seq<u8> {
    match r {
        AdminResponse::Hangup => Seq::empty(),
        AdminResponse::Okay => seq![79u8, 75u8, 13u8, 10u8],
        AdminResponse::Stats => stats_text(stats),
        AdminResponse::Version(v) => version_bytes(v.text()),
    }
}

impl AdminResponse {
    pub fn hangup() -> (r: Self)
        ensures
            r is Hangup,
    {
        AdminResponse::Hangup
    }

    pub fn ok() -> (r: Self)
        ensures
            r is Okay,
    {
        AdminResponse::Okay
    }

    pub fn stats() -> (r: Self)
        ensures
            r is Stats,
    {
        AdminResponse::Stats
    }

    pub fn version(version: String) -> (r: Self)
        ensures
            r is Version,
            r->Version_0.text() == version@,
    {
        AdminResponse::Version(Version { version })
    }

    pub open spec fn should_hangup_spec(&self) -> bool {
        *self is Hangup
    }

    /// A hang-up response ends the session once it is sent.
    pub fn should_hangup(&self) -> (r: bool)
        ensures
            r == self.should_hangup_spec(),
    {
        matches!(self, AdminResponse::Hangup)
    }

    pub fn compose(&self, stats: &Vec<Stat>, buf: &mut Vec<u8>) -> (n: usize)
        ensures
            final(buf)@ == old(buf)@ + response_bytes(*self, stats@),
            n == response_bytes(*self, stats@).len(),
    {
        match self {
            AdminResponse::Hangup => {
                assert(final(buf)@ =~= old(buf)@ + response_bytes(*self, stats@));
                0
            }
            AdminResponse::Okay => {
                push_slice(buf, &[79u8, 75, 13, 10]);
                assert(final(buf)@ =~= old(buf)@ + response_bytes(*self, stats@));
                4
            }
            AdminResponse::Stats => {
                let message = memcache_stats(stats);
                push_slice(buf, message.as_slice());
                message.len()
            }
            AdminResponse::Version(v) => v.compose(buf),
        }
    }
}

} // verus!
