//! Pieces shared by the wire codecs: the parse outcome, CRLF search,
//! whitespace trimming and buffer appends.

use vstd::prelude::*;
use crate::stats::Stat;

verus! {

/// Why a parse produced no value.
#[derive(PartialEq, Eq, Structural, Debug, Clone, Copy)]
pub enum ParseError {
    /// The input is a proper prefix of a valid message: wait for more bytes.
    WouldBlock,
    /// The input cannot begin any valid message.
    Invalid,
}

/// A wire protocol as a worker uses it: requests are parsed from the front
/// of a session's inbound bytes, and responses are composed onto its
/// outbound bytes.
pub trait Codec: Copy + Sized {
    type Request;
    type Response;
    /// What the contracts say of a request.
    type RequestView;

    spec fn request_view(r: Self::Request) -> Self::RequestView;

    /// What parsing `b` yields: a request and the bytes it took, or why none.
    spec fn parse_spec(b: Seq<u8>) -> Result<(Self::RequestView, nat), ParseError>;

    /// What composing `resp` writes; `stats` are the metric readings that a
    /// report response carries.
    spec fn response_spec(resp: Self::Response, stats: Seq<Stat>) -> Seq<u8>;

    /// Whether sending `resp` ends the session.
    spec fn hangup_spec(resp: Self::Response) -> bool;

    fn decode(&self, buffer: &[u8]) -> (r: Result<ParseOk<Self::Request>, ParseError>)
        ensures
            match Self::parse_spec(buffer@) {
                Ok((v, n)) => n <= buffer@.len() && r is Ok && Self::request_view(r->Ok_0.value) == v
                    && r->Ok_0.consumed == n,
                Err(e) => r == Err::<ParseOk<Self::Request>, ParseError>(e),
            },
    ;

    fn encode_response(
        &self,
        request: &Self::Request,
        response: &Self::Response,
        stats: &Vec<Stat>,
        buffer: &mut Vec<u8>,
    ) -> (n: usize)
        ensures
            final(buffer)@ == old(buffer)@ + Self::response_spec(*response, stats@),
            n == Self::response_spec(*response, stats@).len(),
    ;

    fn hangs_up(response: &Self::Response) -> (r: bool)
        ensures
            r == Self::hangup_spec(*response),
    ;
}

/// A parsed value with the number of bytes it took.
#[derive(PartialEq, Eq, Debug)]
pub struct ParseOk<T> {
    pub value: T,
    pub consumed: usize,
}

impl<T> ParseOk<T> {
    pub fn new(value: T, consumed: usize) -> (r: Self)
        ensures
            r.value == value,
            r.consumed == consumed,
    {
        ParseOk { value, consumed }
    }

    pub fn consumed(&self) -> (r: usize)
        ensures
            r == self.consumed,
    {
        self.consumed
    }

    pub fn into_inner(self) -> (r: T)
        ensures
            r == self.value,
    {
        self.value
    }
}

pub open spec fn crlf_bytes() -> Seq<u8> {
    seq![13u8, 10u8]
}

pub open spec fn has_crlf_at(b: Seq<u8>, i: int) -> bool {
    0 <= i && i + 1 < b.len() && b[i] == 13u8 && b[i + 1] == 10u8
}

pub open spec fn no_crlf_before(b: Seq<u8>, e: int) -> bool {
    forall|j: int| 0 <= j < e ==> !has_crlf_at(b, j)
}

/// The position of the first CRLF at or after `i`.
pub open spec fn crlf_from(b: Seq<u8>, i: nat) -> Option<nat>
    decreases b.len() - i,
{
    if i + 1 >= b.len() {
        None
    } else if has_crlf_at(b, i as int) {
        Some(i)
    } else {
        crlf_from(b, i + 1)
    }
}

/// The position of the first CRLF in `b`.
pub open spec fn first_crlf(b: Seq<u8>) -> Option<nat> {
    crlf_from(b, 0)
}

/// `crlf_from` finds exactly the first CRLF at or after `i`.
pub proof fn lemma_crlf_from(b: Seq<u8>, i: nat)
    ensures
        match crlf_from(b, i) {
            Some(e) => i <= e && has_crlf_at(b, e as int)
                && forall|j: int| i <= j < e ==> !has_crlf_at(b, j),
            None => forall|j: int| i <= j ==> !has_crlf_at(b, j),
        },
    decreases b.len() - i,
{
    if i + 1 >= b.len() {
    } else if has_crlf_at(b, i as int) {
    } else {
        lemma_crlf_from(b, i + 1);
    }
}

/// A CRLF at `e` with none before it is the first.
pub proof fn lemma_first_crlf_at(b: Seq<u8>, e: nat)
    requires
        has_crlf_at(b, e as int),
        no_crlf_before(b, e as int),
    ensures
        first_crlf(b) == Some(e),
{
    lemma_crlf_from(b, 0);
    match first_crlf(b) {
        Some(f) => {
            if f < e {
                assert(!has_crlf_at(b, f as int));
            } else if f > e {
                assert(!has_crlf_at(b, e as int));
            }
        },
        None => {
            assert(!has_crlf_at(b, e as int));
        },
    }
}

/// Finds the first CRLF of `b`.
pub fn find_crlf(b: &[u8]) -> (r: Option<usize>)
    ensures
        match r {
            Some(e) => first_crlf(b@) == Some(e as nat) && e + 2 <= b@.len(),
            None => first_crlf(b@) is None,
        },
{
    proof {
        lemma_crlf_from(b@, 0);
    }
    let mut i: usize = 0;
    while b.len() - i > 1
        invariant
            crlf_from(b@, i as nat) == first_crlf(b@),
            i <= b@.len(),
        decreases b@.len() - i,
    {
        if b[i] == 13u8 && b[i + 1] == 10u8 {
            return Some(i);
        }
        i = i + 1;
    }
    None
}

/// Space or horizontal tab.
pub open spec fn is_hspace(c: u8) -> bool {
    c == 32u8 || c == 9u8
}

pub open spec fn trim_front(s: Seq<u8>) -> Seq<u8>
    decreases s.len(),
{
    if s.len() > 0 && is_hspace(s[0]) {
        trim_front(s.drop_first())
    } else {
        s
    }
}

pub open spec fn trim_back(s: Seq<u8>) -> Seq<u8>
    decreases s.len(),
{
    if s.len() > 0 && is_hspace(s.last()) {
        trim_back(s.drop_last())
    } else {
        s
    }
}

/// `s` without its leading and trailing horizontal whitespace.
pub open spec fn trim(s: Seq<u8>) -> Seq<u8> {
    trim_back(trim_front(s))
}

/// Leading horizontal whitespace does not survive trimming the front.
pub proof fn lemma_trim_front_skips(a: Seq<u8>, x: Seq<u8>)
    requires
        forall|i: int| 0 <= i < a.len() ==> is_hspace(#[trigger] a[i]),
    ensures
        trim_front(a + x) == trim_front(x),
    decreases a.len(),
{
    if a.len() > 0 {
        assert((a + x).drop_first() =~= a.drop_first() + x);
        lemma_trim_front_skips(a.drop_first(), x);
    } else {
        assert(a + x =~= x);
    }
}

/// Trailing horizontal whitespace does not survive trimming the back.
pub proof fn lemma_trim_back_skips(x: Seq<u8>, a: Seq<u8>)
    requires
        forall|i: int| 0 <= i < a.len() ==> is_hspace(#[trigger] a[i]),
    ensures
        trim_back(x + a) == trim_back(x),
    decreases a.len(),
{
    if a.len() > 0 {
        assert((x + a).drop_last() =~= x + a.drop_last());
        lemma_trim_back_skips(x, a.drop_last());
    } else {
        assert(x + a =~= x);
    }
}

/// Text that neither starts nor ends with horizontal whitespace is its own trim.
pub proof fn lemma_trim_fixed(x: Seq<u8>)
    requires
        x.len() > 0,
        !is_hspace(x[0]),
        !is_hspace(x.last()),
    ensures
        trim(x) == x,
{
}

/// Removes leading and trailing horizontal whitespace.
pub fn trim_slice(s: &[u8]) -> (r: &[u8])
    ensures
        r@ == trim(s@),
{
    let n = s.len();
    let mut start: usize = 0;
    assert(s@.subrange(0, n as int) =~= s@);
    while start < n && (s[start] == 32u8 || s[start] == 9u8)
        invariant
            n == s@.len(),
            start <= n,
            trim_front(s@.subrange(start as int, n as int)) == trim_front(s@),
        decreases n - start,
    {
        assert(s@.subrange(start as int, n as int).drop_first() =~= s@.subrange(start + 1, n as int));
        start = start + 1;
    }
    let front = vstd::slice::slice_subrange(s, start, n);
    let mut end: usize = front.len();
    assert(front@.subrange(0, front@.len() as int) =~= front@);
    while end > 0 && (front[end - 1] == 32u8 || front[end - 1] == 9u8)
        invariant
            end <= front@.len(),
            front@ == trim_front(s@),
            trim_back(front@.subrange(0, end as int)) == trim(s@),
        decreases end,
    {
        assert(front@.subrange(0, end as int).drop_last() =~= front@.subrange(0, end - 1));
        end = end - 1;
    }
    vstd::slice::slice_subrange(front, 0, end)
}

/// Appends `s` to `buf`.
pub fn push_slice(buf: &mut Vec<u8>, s: &[u8])
    ensures
        final(buf)@ == old(buf)@ + s@,
{
    let mut i: usize = 0;
    while i < s.len()
        invariant
            i <= s@.len(),
            buf@ == old(buf)@ + s@.subrange(0, i as int),
        decreases s@.len() - i,
    {
        buf.push(s[i]);
        i = i + 1;
        assert(buf@ =~= old(buf)@ + s@.subrange(0, i as int));
    }
    assert(s@.subrange(0, i as int) =~= s@);
}

} // verus!
