//! The decisions of a worker's event loop. The worker owns a slot table of
//! sessions, each with its unparsed inbound bytes and its staged outbound
//! bytes; requests go to storage through a bounded data queue, and closed
//! sessions go back to the listener. Polling, sockets and threads belong to
//! the caller, which reports what it saw and carries out what is decided here.

use vstd::prelude::*;
use crate::codec::{Codec, ParseError, ParseOk, push_slice};
use crate::admin::{AdminProtocol, AdminRequest, AdminResponse, request_bytes, response_bytes, lemma_request_round_trip};
use crate::stats::Stat;

verus! {

/// The token of the worker's own waker; no session slot uses it.
pub const WAKER_TOKEN: usize = usize::MAX;

/// The capacity of a data queue.
pub const QUEUE_CAPACITY: usize = 65536;

/// A connection as the listener hands it over: a handle naming its socket,
/// and its buffered inbound and outbound bytes.
pub struct Session {
    pub handle: u64,
    pub read_buf: Vec<u8>,
    pub write_buf: Vec<u8>,
}

/// Readiness a session asks to be told about.
#[derive(PartialEq, Eq, Structural, Debug, Clone, Copy)]
pub struct Interest {
    pub readable: bool,
    pub writable: bool,
}

/// A session together with the codec that reads and writes it.
pub struct ServerSession<P: Codec> {
    session: Session,
    protocol: P,
}

impl<P: Codec> ServerSession<P> {
    pub closed spec fn handle_spec(&self) -> u64 {
        self.session.handle
    }

    /// Bytes received and not yet parsed.
    pub closed spec fn inbound(&self) -> Seq<u8> {
        self.session.read_buf@
    }

    /// Bytes composed and not yet written to the socket.
    pub closed spec fn outbound(&self) -> Seq<u8> {
        self.session.write_buf@
    }

    pub fn new(session: Session, protocol: P) -> (r: Self)
        ensures
            r.handle_spec() == session.handle,
            r.inbound() == session.read_buf@,
            r.outbound() == session.write_buf@,
    {
        ServerSession { session, protocol }
    }

    pub fn into_inner(self) -> (r: Session)
        ensures
            r.handle == self.handle_spec(),
            r.read_buf@ == self.inbound(),
            r.write_buf@ == self.outbound(),
    {
        self.session
    }

    pub fn handle(&self) -> (r: u64)
        ensures
            r == self.handle_spec(),
    {
        self.session.handle
    }

    /// Appends bytes that were read from the socket.
    pub fn fill(&mut self, bytes: &[u8])
        ensures
            final(self).inbound() == old(self).inbound() + bytes@,
            final(self).outbound() == old(self).outbound(),
            final(self).handle_spec() == old(self).handle_spec(),
    {
        push_slice(&mut self.session.read_buf, bytes);
    }

    /// Parses one request from the front of the inbound bytes and consumes it.
    pub fn receive(&mut self) -> (r: Result<P::Request, ParseError>)
        ensures
            r is Err ==> *final(self) == *old(self),
            final(self).outbound() == old(self).outbound(),
            final(self).handle_spec() == old(self).handle_spec(),
            match P::parse_spec(old(self).inbound()) {
                Ok((req, n)) => r is Ok && P::request_view(r->Ok_0) == req && final(self).inbound()
                    == old(self).inbound().subrange(n as int, old(self).inbound().len() as int),
                Err(e) => r == Err::<P::Request, ParseError>(e) && final(self).inbound() == old(
                    self,
                ).inbound(),
            },
    {
        let parsed = self.protocol.decode(self.session.read_buf.as_slice());
        match parsed {
            Ok(ok) => {
                let n = ok.consumed();
                let len = self.session.read_buf.len();
                let rest = vstd::slice::slice_to_vec(
                    vstd::slice::slice_subrange(self.session.read_buf.as_slice(), n, len),
                );
                self.session.read_buf = rest;
                Ok(ok.into_inner())
            },
            Err(e) => Err(e),
        }
    }

    /// Composes `response` to `request` into the outbound bytes.
    pub fn send(&mut self, request: &P::Request, response: &P::Response, stats: &Vec<Stat>) -> (n: usize)
        ensures
            final(self).outbound() == old(self).outbound() + P::response_spec(*response, stats@),
            final(self).inbound() == old(self).inbound(),
            final(self).handle_spec() == old(self).handle_spec(),
            n == P::response_spec(*response, stats@).len(),
    {
        self.protocol.encode_response(request, response, stats, &mut self.session.write_buf)
    }

    /// Drops the first `n` outbound bytes, which the socket has taken.
    pub fn flushed(&mut self, n: usize)
        requires
            n <= old(self).outbound().len(),
        ensures
            final(self).outbound() == old(self).outbound().subrange(n as int, old(self).outbound().len() as int),
            final(self).inbound() == old(self).inbound(),
            final(self).handle_spec() == old(self).handle_spec(),
    {
        let len = self.session.write_buf.len();
        let rest = vstd::slice::slice_to_vec(
            vstd::slice::slice_subrange(self.session.write_buf.as_slice(), n, len),
        );
        self.session.write_buf = rest;
    }

    pub fn outbound_bytes(&self) -> (r: &[u8])
        ensures
            r@ == self.outbound(),
    {
        self.session.write_buf.as_slice()
    }

    pub fn write_pending(&self) -> (r: usize)
        ensures
            r == self.outbound().len(),
    {
        self.session.write_buf.len()
    }

    pub fn remaining(&self) -> (r: usize)
        ensures
            r == self.inbound().len(),
    {
        self.session.read_buf.len()
    }

    /// Always readable; writable while outbound bytes wait.
    pub fn interest(&self) -> (r: Interest)
        ensures
            r.readable,
            r.writable == (self.outbound().len() > 0),
    {
        Interest { readable: true, writable: self.session.write_buf.len() > 0 }
    }
}

/// Why a session is closed.
#[derive(PartialEq, Eq, Structural, Debug, Clone, Copy)]
pub enum WorkerError {
    /// No session stands in the slot.
    NoSession,
    /// The data queue to storage is full.
    QueueFull,
    /// The inbound bytes are no valid request.
    Invalid,
}

/// Control messages from the admin thread.
#[derive(PartialEq, Eq, Structural, Debug, Clone, Copy)]
pub enum Signal {
    FlushAll,
    Shutdown,
}

/// Sets up a worker.
pub struct MultiWorkerBuilder<P: Codec> {
    nevent: usize,
    timeout_ms: u64,
    protocol: P,
}

impl<P: Codec> MultiWorkerBuilder<P> {
    pub fn new(nevent: usize, timeout_ms: u64, protocol: P) -> (r: Self)
        ensures
            r.nevent_spec() == nevent,
            r.timeout_spec() == timeout_ms,
    {
        MultiWorkerBuilder { nevent, timeout_ms, protocol }
    }

    pub closed spec fn nevent_spec(&self) -> usize {
        self.nevent
    }

    pub closed spec fn timeout_spec(&self) -> u64 {
        self.timeout_ms
    }

    /// A worker with no sessions and empty queues, whose data queue holds
    /// at most `capacity` requests.
    pub fn build(self, capacity: usize) -> (w: MultiWorker<P>)
        ensures
            w.wf(),
            w.slots().len() == 0,
            w.outgoing().len() == 0,
            w.returned_sessions().len() == 0,
            w.capacity() == capacity,
            w.nevent() == self.nevent_spec(),
            w.timeout_ms() == self.timeout_spec(),
    {
        MultiWorker {
            nevent: self.nevent,
            timeout_ms: self.timeout_ms,
            protocol: self.protocol,
            sessions: Vec::new(),
            data_queue: Vec::new(),
            capacity,
            session_queue: Vec::new(),
        }
    }
}

/// What became of one response taken from the data queue.
#[derive(PartialEq, Eq, Structural, Debug, Clone, Copy)]
pub enum Delivery {
    /// Its session had already gone: nothing was done.
    Dropped,
    /// It was a hang-up: the session was closed.
    HungUp,
    /// It was staged; the session stays open.
    Staged,
    /// It was staged, and parsing the next buffered request failed: the
    /// session was closed.
    Closed,
}

/// A readiness event for a session slot.
pub struct IoEvent {
    pub token: usize,
    pub error: bool,
    /// Bytes that a write on the socket accepted, when it was writable.
    pub written: Option<usize>,
    /// Bytes that a read on the socket delivered, when it was readable.
    pub read: Option<Vec<u8>>,
}

/// A worker: its slot table and its queues.
pub struct MultiWorker<P: Codec> {
    nevent: usize,
    timeout_ms: u64,
    protocol: P,
    sessions: Vec<Option<ServerSession<P>>>,
    data_queue: Vec<(P::Request, usize)>,
    capacity: usize,
    session_queue: Vec<Session>,
}


/// A session that went back to the listener carries the handle and the
/// bytes of the server session it was taken from.
/// What the contracts say of queued requests: each request's view and its
/// token.
pub open spec fn queue_view<P: Codec>(q: Seq<(P::Request, usize)>) -> Seq<(P::RequestView, usize)> {
    q.map_values(|e: (P::Request, usize)| (P::request_view(e.0), e.1))
}

pub open spec fn reclaims<P: Codec>(s: Session, ss: ServerSession<P>) -> bool {
    &&& s.handle == ss.handle_spec()
    &&& s.read_buf@ == ss.inbound()
    &&& s.write_buf@ == ss.outbound()
}

/// Closing slot `t` of `w0` gives `w1`: an occupied slot is vacated and its
/// session appended, once, to those returned to the listener; an empty or
/// unknown slot changes nothing.
pub open spec fn close_effect<P: Codec>(w0: MultiWorker<P>, w1: MultiWorker<P>, t: int) -> bool {
    &&& w1.outgoing() == w0.outgoing()
    &&& w1.capacity() == w0.capacity()
    &&& w1.nevent() == w0.nevent()
    &&& w1.timeout_ms() == w0.timeout_ms()
    &&& if w0.occupied(t) {
        &&& w1.slots() == w0.slots().update(t, None)
        &&& w1.returned_sessions().len() == w0.returned_sessions().len() + 1
        &&& w1.returned_sessions().drop_last() == w0.returned_sessions()
        &&& reclaims(w1.returned_sessions().last(), w0.slots()[t]->Some_0)
    } else {
        &&& w1.slots() == w0.slots()
        &&& w1.returned_sessions() == w0.returned_sessions()
    }
}

/// Once slot `t` is closed it holds no session, so a
/// later response for `t` is dropped and a later read of `t` is refused.
pub proof fn lemma_closed_slot_is_vacant<P: Codec>(w0: MultiWorker<P>, w1: MultiWorker<P>, t: int)
    requires
        close_effect(w0, w1, t),
    ensures
        !w1.occupied(t),
{
}

/// `w1` is `w0` with the session of slot `t` now holding `inbound` and
/// `outbound`; all else is as it was.
pub open spec fn slot_changed<P: Codec>(w0: MultiWorker<P>, w1: MultiWorker<P>, t: int, inbound: Seq<u8>, outbound: Seq<u8>) -> bool {
    &&& w1.outgoing() == w0.outgoing()
    &&& w1.returned_sessions() == w0.returned_sessions()
    &&& w1.capacity() == w0.capacity()
    &&& w1.nevent() == w0.nevent()
    &&& w1.timeout_ms() == w0.timeout_ms()
    &&& w1.slots().len() == w0.slots().len()
    &&& w1.occupied(t)
    &&& w1.slots()[t]->Some_0.handle_spec() == w0.slots()[t]->Some_0.handle_spec()
    &&& w1.slots()[t]->Some_0.inbound() == inbound
    &&& w1.slots()[t]->Some_0.outbound() == outbound
    &&& forall|k: int| 0 <= k < w0.slots().len() && k != t ==> #[trigger] w1.slots()[k] == w0.slots()[k]
}

/// The socket of slot `t` took `written` of its staged bytes (all of them
/// when it reports more).
pub open spec fn write_effect<P: Codec>(w0: MultiWorker<P>, w1: MultiWorker<P>, t: int, written: usize) -> bool {
    let s0 = w0.slots()[t]->Some_0;
    let n = if written < s0.outbound().len() { written as int } else { s0.outbound().len() as int };
    slot_changed(w0, w1, t, s0.inbound(), s0.outbound().subrange(n, s0.outbound().len() as int))
}

/// The steps of a readiness event for the open slot `t`, from `w0` to `w`,
/// through the states `a` (after the write), `b` (after buffering what was
/// read) and `c` (after the read of one request, with outcome `r`): a
/// write that the socket took is recorded; a read of no bytes closes the
/// session; bytes read are appended to the inbound bytes and up to one
/// request is forwarded; a failed read closes the session.
pub open spec fn event_steps<P: Codec>(
    w0: MultiWorker<P>,
    a: MultiWorker<P>,
    b: MultiWorker<P>,
    c: MultiWorker<P>,
    w: MultiWorker<P>,
    event: IoEvent,
    r: Result<(), WorkerError>,
    closed: bool,
) -> bool {
    let t = event.token as int;
    &&& match event.written {
        None => a == w0,
        Some(n) => write_effect(w0, a, t, n),
    }
    &&& match event.read {
        None => w == a && !closed,
        Some(bytes) => if bytes@.len() == 0 {
            closed && close_effect(a, w, t)
        } else {
            &&& slot_changed(
                a,
                b,
                t,
                a.slots()[t]->Some_0.inbound() + bytes@,
                a.slots()[t]->Some_0.outbound(),
            )
            &&& read_effect(b, c, t, r)
            &&& r is Ok ==> w == c && !closed
            &&& r is Err ==> closed && close_effect(c, w, t)
        },
    }
}

/// Delivering `resp` for slot `token` takes `w0` to `w1` with outcome `d`:
/// dropped when the slot is empty; a hang-up closes the session; otherwise
/// the response is composed into the session's outbound bytes, then one
/// request already buffered is parsed and forwarded, and a failure of that
/// parse closes the session. Other slots are untouched.
pub open spec fn response_effect<P: Codec>(
    w0: MultiWorker<P>,
    w1: MultiWorker<P>,
    resp: P::Response,
    token: usize,
    stats: Seq<Stat>,
    d: Delivery,
) -> bool {
    &&& !w0.occupied(token as int) <==> d == Delivery::Dropped
    &&& w1.slots().len() == w0.slots().len()
    &&& forall|k: int| 0 <= k < w0.slots().len() && k != token
            ==> #[trigger] w1.slots()[k] == w0.slots()[k]
    &&& d == Delivery::Dropped ==> w1.slots() == w0.slots()
            && w1.outgoing() == w0.outgoing()
            && w1.returned_sessions() == w0.returned_sessions()
    &&& w0.occupied(token as int) && P::hangup_spec(resp) ==> ({
            let s0 = w0.slots()[token as int]->Some_0;
            &&& d == Delivery::HungUp
            &&& w1.outgoing() == w0.outgoing()
            &&& w1.slots() == w0.slots().update(token as int, None)
            &&& w1.returned_sessions().len() == w0.returned_sessions().len() + 1
            &&& w1.returned_sessions().drop_last() == w0.returned_sessions()
            &&& w1.returned_sessions().last().handle == s0.handle_spec()
            &&& w1.returned_sessions().last().read_buf@ == s0.inbound()
            &&& w1.returned_sessions().last().write_buf@ == s0.outbound() + P::response_spec(resp, stats)
        })
    &&& w0.occupied(token as int) && !P::hangup_spec(resp) ==> ({
            let s0 = w0.slots()[token as int]->Some_0;
            let bytes = s0.outbound() + P::response_spec(resp, stats);
            let parsed = P::parse_spec(s0.inbound());
            let forwarded = parsed is Ok && w0.outgoing().len() < w0.capacity();
            let fails = parsed is Err && parsed->Err_0 == ParseError::Invalid || parsed is Ok
                && !forwarded;
            &&& d == Delivery::Staged ==> w1.slots()[token as int]->Some_0.handle_spec() == s0.handle_spec()
                && w1.slots()[token as int]->Some_0.inbound() == if s0.inbound().len() > 0 && parsed is Ok {
                    s0.inbound().subrange(parsed->Ok_0.1 as int, s0.inbound().len() as int)
                } else {
                    s0.inbound()
                }
            &&& s0.inbound().len() == 0 || !fails ==> d == Delivery::Staged
                && w1.occupied(token as int)
                && w1.slots()[token as int]->Some_0.outbound() == bytes
                && w1.returned_sessions() == w0.returned_sessions()
            &&& s0.inbound().len() > 0 && fails ==> d == Delivery::Closed
                && !w1.occupied(token as int)
                && w1.returned_sessions().len() == w0.returned_sessions().len() + 1
                && w1.returned_sessions().drop_last() == w0.returned_sessions()
                && w1.returned_sessions().last().handle == s0.handle_spec()
                && w1.returned_sessions().last().write_buf@ == bytes
            &&& w1.outgoing() == if s0.inbound().len() > 0 && forwarded {
                w0.outgoing().push((parsed->Ok_0.0, token))
            } else {
                w0.outgoing()
            }
        })
}

/// Delivering the responses `msgs` one after another, in order, takes `w0`
/// through the states `ws` to `w`, with outcomes `ds`.
pub open spec fn delivered_each<P: Codec>(
    w0: MultiWorker<P>,
    w: MultiWorker<P>,
    msgs: Seq<(P::Request, P::Response, usize)>,
    stats: Seq<Stat>,
    ws: Seq<MultiWorker<P>>,
    ds: Seq<Delivery>,
) -> bool {
    &&& ws.len() == msgs.len() + 1
    &&& ds.len() == msgs.len()
    &&& ws[0] == w0
    &&& ws[msgs.len() as int] == w
    &&& forall|i: int| 0 <= i < msgs.len()
        ==> #[trigger] response_effect(ws[i], ws[i + 1], msgs[i].1, msgs[i].2, stats, ds[i])
}

/// Pipelined requests: when one read brings two admin requests to an open
/// session with nothing buffered, and the data queue has room for both, the
/// read forwards the first and keeps the second buffered; staging the first
/// response then forwards the second, with no further read, and appends the
/// response to the session's outbound bytes.
pub proof fn lemma_pipelined_requests(
    w0: MultiWorker<AdminProtocol>,
    a: MultiWorker<AdminProtocol>,
    b: MultiWorker<AdminProtocol>,
    c: MultiWorker<AdminProtocol>,
    w1: MultiWorker<AdminProtocol>,
    event: IoEvent,
    r: Result<(), WorkerError>,
    closed: bool,
    r1: AdminRequest,
    r2: AdminRequest,
    resp: AdminResponse,
    stats: Seq<Stat>,
    w2: MultiWorker<AdminProtocol>,
    d: Delivery,
)
    requires
        w0.occupied(event.token as int),
        w0.slots()[event.token as int]->Some_0.inbound().len() == 0,
        w0.outgoing().len() + 2 <= w0.capacity(),
        !event.error,
        event.written is None,
        event.read is Some,
        event.read->Some_0@ == request_bytes(r1) + request_bytes(r2),
        event_steps(w0, a, b, c, w1, event, r, closed),
        !resp.should_hangup_spec(),
        response_effect(w1, w2, resp, event.token, stats, d),
    ensures
        !closed,
        w1.outgoing() == w0.outgoing().push((r1, event.token)),
        w1.slots()[event.token as int]->Some_0.inbound() == request_bytes(r2),
        d == Delivery::Staged,
        w2.outgoing() == w1.outgoing().push((r2, event.token)),
        w2.slots()[event.token as int]->Some_0.inbound().len() == 0,
        w2.slots()[event.token as int]->Some_0.outbound() == w1.slots()[event.token as int]->Some_0.outbound()
            + response_bytes(resp, stats),
{
    let t = event.token as int;
    let bytes = request_bytes(r1) + request_bytes(r2);
    assert(a == w0);
    assert(a.slots()[t]->Some_0.inbound() + bytes =~= bytes);
    lemma_request_round_trip(r1, request_bytes(r2));
    assert(bytes.subrange(request_bytes(r1).len() as int, bytes.len() as int) =~= request_bytes(r2));
    lemma_request_round_trip(r2, Seq::empty());
    assert(request_bytes(r2) + Seq::<u8>::empty() =~= request_bytes(r2));
    assert(w1 == c);
    let s1 = w1.slots()[t]->Some_0;
    assert(s1.inbound().subrange(request_bytes(r2).len() as int, s1.inbound().len() as int) =~= Seq::<u8>::empty());
}

/// Handling up to one request of slot `t` of `w0` gives `w1` and `r`: the
/// first buffered request is parsed and consumed; it is queued to storage
/// with its token while the data queue has room, and refused otherwise.
pub open spec fn read_effect<P: Codec>(
    w0: MultiWorker<P>,
    w1: MultiWorker<P>,
    t: int,
    r: Result<(), WorkerError>,
) -> bool {
    &&& w1.returned_sessions() == w0.returned_sessions()
    &&& w1.capacity() == w0.capacity()
    &&& w1.nevent() == w0.nevent()
    &&& w1.timeout_ms() == w0.timeout_ms()
    &&& if !w0.occupied(t) {
        &&& r == Err::<(), WorkerError>(WorkerError::NoSession)
        &&& w1.slots() == w0.slots()
        &&& w1.outgoing() == w0.outgoing()
    } else {
        let s0 = w0.slots()[t]->Some_0;
        match P::parse_spec(s0.inbound()) {
            Ok((req, n)) => {
                &&& w1.slots().len() == w0.slots().len()
                &&& forall|k: int| 0 <= k < w0.slots().len() && k != t ==> w1.slots()[k] == w0.slots()[k]
                &&& w1.occupied(t)
                &&& w1.slots()[t]->Some_0.handle_spec() == s0.handle_spec()
                &&& w1.slots()[t]->Some_0.outbound() == s0.outbound()
                &&& w1.slots()[t]->Some_0.inbound() == s0.inbound().subrange(n as int, s0.inbound().len() as int)
                &&& if w0.outgoing().len() < w0.capacity() {
                    &&& r == Ok::<(), WorkerError>(())
                    &&& w1.outgoing() == w0.outgoing().push((req, t as usize))
                } else {
                    &&& r == Err::<(), WorkerError>(WorkerError::QueueFull)
                    &&& w1.outgoing() == w0.outgoing()
                }
            },
            Err(e) => {
                &&& w1.slots() == w0.slots()
                &&& w1.outgoing() == w0.outgoing()
                &&& r == (if e == ParseError::WouldBlock {
                    Ok::<(), WorkerError>(())
                } else {
                    Err::<(), WorkerError>(WorkerError::Invalid)
                })
            },
        }
    }
}

/// The bytes that the responses of `msgs` addressed to `t` compose to, in
/// the order of `msgs`.
pub open spec fn bytes_for<P: Codec>(msgs: Seq<(P::Request, P::Response, usize)>, t: usize, stats: Seq<Stat>) -> Seq<u8>
    decreases msgs.len(),
{
    if msgs.len() == 0 {
        Seq::empty()
    } else if msgs.last().2 == t {
        bytes_for::<P>(msgs.drop_last(), t, stats) + P::response_spec(msgs.last().1, stats)
    } else {
        bytes_for::<P>(msgs.drop_last(), t, stats)
    }
}

/// Every quiet session of `w0` (see `quiet_session`) is still open in `w`,
/// with the responses of `done` addressed to it appended, in order.
pub open spec fn delivered_in_order<P: Codec>(
    w0: MultiWorker<P>,
    w: MultiWorker<P>,
    done: Seq<(P::Request, P::Response, usize)>,
    msgs: Seq<(P::Request, P::Response, usize)>,
    stats: Seq<Stat>,
) -> bool {
    forall|t: usize| quiet_session(w0, msgs, t) ==> {
        &&& #[trigger] w.occupied(t as int)
        &&& w.slots()[t as int]->Some_0.inbound().len() == 0
        &&& w.slots()[t as int]->Some_0.outbound() == w0.slots()[t as int]->Some_0.outbound()
            + bytes_for::<P>(done, t, stats)
    }
}

/// Slot `t` of `w` holds a session with nothing left to parse, and no
/// response of `msgs` to it hangs up.
pub open spec fn quiet_session<P: Codec>(w: MultiWorker<P>, msgs: Seq<(P::Request, P::Response, usize)>, t: usize) -> bool {
    &&& w.occupied(t as int)
    &&& w.slots()[t as int]->Some_0.inbound().len() == 0
    &&& forall|i: int| 0 <= i < msgs.len() && (#[trigger] msgs[i]).2 == t ==> !P::hangup_spec(msgs[i].1)
}

impl<P: Codec> MultiWorker<P> {
    pub closed spec fn slots(&self) -> Seq<Option<ServerSession<P>>> {
        self.sessions@
    }

    /// Requests waiting in the data queue to storage, oldest first.
    pub closed spec fn outgoing(&self) -> Seq<(P::RequestView, usize)> {
        queue_view::<P>(self.data_queue@)
    }

    /// Sessions handed back to the listener, oldest first.
    pub closed spec fn returned_sessions(&self) -> Seq<Session> {
        self.session_queue@
    }

    pub closed spec fn capacity(&self) -> usize {
        self.capacity
    }

    pub closed spec fn nevent(&self) -> usize {
        self.nevent
    }

    pub closed spec fn timeout_ms(&self) -> u64 {
        self.timeout_ms
    }

    pub open spec fn occupied(&self, t: int) -> bool {
        0 <= t < self.slots().len() && self.slots()[t] is Some
    }

    /// The data queue never holds more than its capacity, and no slot uses
    /// the waker's token.
    pub open spec fn wf(&self) -> bool {
        &&& self.outgoing().len() <= self.capacity()
        &&& self.slots().len() < WAKER_TOKEN
    }

    pub fn max_events(&self) -> (r: usize)
        ensures
            r == self.nevent(),
    {
        self.nevent
    }

    pub fn poll_timeout_ms(&self) -> (r: u64)
        ensures
            r == self.timeout_ms(),
    {
        self.timeout_ms
    }

    /// Whether slot `token` holds a session.
    pub fn contains(&self, token: usize) -> (r: bool)
        ensures
            r == self.occupied(token as int),
    {
        token < self.sessions.len() && self.sessions[token].is_some()
    }

    /// The token the next admitted session gets: the first empty slot, or a
    /// new one at the end.
    pub fn vacant_token(&self) -> (t: usize)
        requires
            self.wf(),
        ensures
            t <= self.slots().len(),
            t < WAKER_TOKEN,
            t < self.slots().len() ==> self.slots()[t as int] is None,
            forall|k: int| 0 <= k < t ==> self.occupied(k),
    {
        let mut i: usize = 0;
        while i < self.sessions.len()
            invariant
                i <= self.sessions@.len(),
                forall|k: int| 0 <= k < i ==> self.occupied(k),
            decreases self.sessions@.len() - i,
        {
            if self.sessions[i].is_none() {
                return i;
            }
            i = i + 1;
        }
        i
    }

    fn take_slot(&mut self, token: usize) -> (r: Option<ServerSession<P>>)
        requires
            token < old(self).slots().len(),
        ensures
            r == old(self).slots()[token as int],
            final(self).slots() == old(self).slots().update(token as int, None),
            final(self).outgoing() == old(self).outgoing(),
            final(self).returned_sessions() == old(self).returned_sessions(),
            final(self).capacity() == old(self).capacity(),
            final(self).nevent() == old(self).nevent(),
            final(self).timeout_ms() == old(self).timeout_ms(),
    {
        let r = self.sessions.remove(token);
        self.sessions.insert(token, None);
        assert(self.sessions@ =~= old(self).sessions@.update(token as int, None));
        r
    }

    fn put_slot(&mut self, token: usize, s: ServerSession<P>)
        requires
            token < old(self).slots().len(),
        ensures
            final(self).slots() == old(self).slots().update(token as int, Some(s)),
            final(self).outgoing() == old(self).outgoing(),
            final(self).returned_sessions() == old(self).returned_sessions(),
            final(self).capacity() == old(self).capacity(),
            final(self).nevent() == old(self).nevent(),
            final(self).timeout_ms() == old(self).timeout_ms(),
    {
        let ghost s0 = s;
        self.sessions.remove(token);
        self.sessions.insert(token, Some(s));
        assert(self.sessions@ =~= old(self).sessions@.update(token as int, Some(s0)));
    }

    /// Takes in a session from the listener at `token`, which
    /// `vacant_token` gave. Where registering it for readiness failed, or the
    /// slot table is full, it goes straight back to the listener instead.
    pub fn accept_session(&mut self, token: usize, session: Session, registered: bool)
        requires
            old(self).wf(),
            token <= old(self).slots().len(),
            token < WAKER_TOKEN,
            token < old(self).slots().len() ==> old(self).slots()[token as int] is None,
        ensures
            final(self).wf(),
            final(self).outgoing() == old(self).outgoing(),
            final(self).capacity() == old(self).capacity(),
            final(self).nevent() == old(self).nevent(),
            final(self).timeout_ms() == old(self).timeout_ms(),
            registered && token + 1 < WAKER_TOKEN ==> final(self).occupied(token as int) && final(self).returned_sessions()
                == old(self).returned_sessions() && reclaims(session, final(self).slots()[token as int]->Some_0)
                && forall|k: int| 0 <= k < old(self).slots().len() && k != token
                    ==> final(self).slots()[k] == old(self).slots()[k],
            !(registered && token + 1 < WAKER_TOKEN) ==> final(self).slots() == old(self).slots()
                && final(self).returned_sessions() == old(self).returned_sessions().push(session),
    {
        if registered && token + 1 < WAKER_TOKEN {
            let s = ServerSession::new(session, self.protocol);
            if token == self.sessions.len() {
                self.sessions.push(Some(s));
            } else {
                self.put_slot(token, s);
            }
        } else {
            self.session_queue.push(session);
        }
    }

    /// Returns the session of slot `token` to the listener, which flushes and
    /// closes it.
    pub fn close(&mut self, token: usize)
        requires
            old(self).wf(),
        ensures
            final(self).wf(),
            close_effect(*old(self), *final(self), token as int),
    {
        if self.contains(token) {
            let s = self.take_slot(token);
            match s {
                Some(ss) => {
                    let session = ss.into_inner();
                    self.session_queue.push(session);
                    assert(self.session_queue@.drop_last() =~= old(self).session_queue@);
                },
                None => {},
            }
        }
    }

    /// Parses up to one buffered request of slot `token` and queues it to
    /// storage.
    pub fn read(&mut self, token: usize) -> (r: Result<(), WorkerError>)
        requires
            old(self).wf(),
        ensures
            final(self).wf(),
            read_effect(*old(self), *final(self), token as int, r),
    {
        if !self.contains(token) {
            return Err(WorkerError::NoSession);
        }
        let taken = self.take_slot(token);
        let mut ss = match taken {
            Some(ss) => ss,
            None => { return Err(WorkerError::NoSession); },
        };
        let parsed = ss.receive();
        let ghost s1 = ss;
        self.put_slot(token, ss);
        match parsed {
            Ok(request) => {
                if self.data_queue.len() < self.capacity {
                    let ghost rv = P::request_view(request);
                    let ghost dq = self.data_queue@;
                    self.data_queue.push((request, token));
                    assert(queue_view::<P>(self.data_queue@) =~= queue_view::<P>(dq).push((rv, token)));
                    assert(self.slots()[token as int]->Some_0 == s1);
                    Ok(())
                } else {
                    Err(WorkerError::QueueFull)
                }
            },
            Err(ParseError::WouldBlock) => {
                assert(self.slots() =~= old(self).slots());
                Ok(())
            },
            Err(ParseError::Invalid) => {
                assert(self.slots() =~= old(self).slots());
                Err(WorkerError::Invalid)
            },
        }
    }

    /// Records that the socket of slot `token` took `written` of the staged
    /// bytes (all of them when it reports more).
    pub fn write(&mut self, token: usize, written: usize) -> (r: Result<(), WorkerError>)
        requires
            old(self).wf(),
        ensures
            final(self).wf(),
            final(self).outgoing() == old(self).outgoing(),
            final(self).returned_sessions() == old(self).returned_sessions(),
            final(self).capacity() == old(self).capacity(),
            final(self).nevent() == old(self).nevent(),
            final(self).timeout_ms() == old(self).timeout_ms(),
            !old(self).occupied(token as int) ==> r == Err::<(), WorkerError>(WorkerError::NoSession)
                && final(self).slots() == old(self).slots(),
            old(self).occupied(token as int) ==> r == Ok::<(), WorkerError>(())
                && write_effect(*old(self), *final(self), token as int, written),
    {
        if !self.contains(token) {
            return Err(WorkerError::NoSession);
        }
        let taken = self.take_slot(token);
        let mut ss = match taken {
            Some(ss) => ss,
            None => { return Err(WorkerError::NoSession); },
        };
        let pending = ss.write_pending();
        let n = if written < pending { written } else { pending };
        ss.flushed(n);
        self.put_slot(token, ss);
        Ok(())
    }

    /// Handles a readiness event of a session slot: an error closes the
    /// session; a write that the socket took is recorded; bytes that were
    /// read are buffered and up to one request is forwarded. A read of no
    /// bytes is the peer's close. Any failure closes the session. Returns
    /// whether it was closed.
    pub fn handle_event(&mut self, event: IoEvent) -> (closed: bool)
        requires
            old(self).wf(),
        ensures
            final(self).wf(),
            final(self).capacity() == old(self).capacity(),
            event.error ==> closed && close_effect(*old(self), *final(self), event.token as int),
            !old(self).occupied(event.token as int) ==> final(self).slots() == old(self).slots()
                && final(self).returned_sessions() == old(self).returned_sessions()
                && final(self).outgoing() == old(self).outgoing(),
            closed ==> !final(self).occupied(event.token as int),
            old(self).occupied(event.token as int) && !event.error ==> exists|
                a: MultiWorker<P>,
                b: MultiWorker<P>,
                c: MultiWorker<P>,
                r: Result<(), WorkerError>,
            | #[trigger] event_steps(*old(self), a, b, c, *final(self), event, r, closed),
            old(self).occupied(event.token as int) && !event.error && event.written is None
                && event.read is Some && event.read->Some_0@.len() > 0 ==> ({
                let s0 = old(self).slots()[event.token as int]->Some_0;
                match P::parse_spec(s0.inbound() + event.read->Some_0@) {
                    Ok((req, n)) => if old(self).outgoing().len() < old(self).capacity() {
                        &&& !closed
                        &&& final(self).outgoing() == old(self).outgoing().push((req, event.token))
                    } else {
                        &&& closed
                        &&& final(self).outgoing() == old(self).outgoing()
                        &&& final(self).returned_sessions().len() == old(self).returned_sessions().len() + 1
                        &&& final(self).returned_sessions().last().handle == s0.handle_spec()
                    },
                    Err(e) => {
                        &&& closed == (e == ParseError::Invalid)
                        &&& final(self).outgoing() == old(self).outgoing()
                    },
                }
            }),
            final(self).outgoing().len() <= old(self).outgoing().len() + 1,
            final(self).returned_sessions().len() <= old(self).returned_sessions().len() + 1,
    {
        let token = event.token;
        let ghost ev = event;
        if event.error {
            self.close(token);
            return true;
        }
        if !self.contains(token) {
            return false;
        }
        let ghost w0 = *self;
        match event.written {
            Some(n) => {
                if self.write(token, n).is_err() {
                    self.close(token);
                    return true;
                }
            },
            None => {},
        }
        let ghost a = *self;
        match event.read {
            Some(bytes) => {
                if bytes.len() == 0 {
                    self.close(token);
                    assert(event_steps(w0, a, a, a, *self, ev, Ok(()), true));
                    return true;
                }
                let taken = self.take_slot(token);
                match taken {
                    Some(mut ss) => {
                        ss.fill(bytes.as_slice());
                        self.put_slot(token, ss);
                    },
                    None => {},
                }
                let ghost b = *self;
                let r = self.read(token);
                let ghost c = *self;
                if r.is_err() {
                    self.close(token);
                    assert(event_steps(w0, a, b, c, *self, ev, r, true));
                    return true;
                }
                assert(event_steps(w0, a, b, c, *self, ev, r, false));
            },
            None => {
                assert(event_steps(w0, a, a, a, *self, ev, Ok(()), false));
            },
        }
        false
    }

    /// Delivers a response that storage returned for `request` of slot
    /// `token`: dropped when the session has gone; a hang-up closes the
    /// session; anything else is composed into the session's outbound bytes,
    /// after which a further request already buffered is parsed and
    /// forwarded. A failure of that parse closes the session.
    pub fn handle_response(
        &mut self,
        request: &P::Request,
        response: &P::Response,
        token: usize,
        stats: &Vec<Stat>,
    ) -> (d: Delivery)
        requires
            old(self).wf(),
        ensures
            final(self).wf(),
            final(self).capacity() == old(self).capacity(),
            response_effect(*old(self), *final(self), *response, token, stats@, d),
    {
        if !self.contains(token) {
            return Delivery::Dropped;
        }
        let taken = self.take_slot(token);
        let mut ss = match taken {
            Some(ss) => ss,
            None => { return Delivery::Dropped; },
        };
        ss.send(request, response, stats);
        self.put_slot(token, ss);
        if P::hangs_up(response) {
            self.close(token);
            assert(self.slots() =~= old(self).slots().update(token as int, None));
            return Delivery::HungUp;
        }
        if self.sessions[token].is_some() && self.remaining_at(token) > 0 {
            if self.read(token).is_err() {
                self.close(token);
                return Delivery::Closed;
            }
        }
        Delivery::Staged
    }

    fn remaining_at(&self, token: usize) -> (r: usize)
        requires
            self.occupied(token as int),
        ensures
            r == self.slots()[token as int]->Some_0.inbound().len(),
    {
        match &self.sessions[token] {
            Some(ss) => ss.remaining(),
            None => 0,
        }
    }

    /// The waker's visit after its intake of a new session: every response
    /// that storage returned is delivered in order, then the admin signals
    /// are read. Returns whether a `Shutdown` came, in which case the worker
    /// stops; signals after it are left unread.
    pub fn handle_wake(
        &mut self,
        messages: Vec<(P::Request, P::Response, usize)>,
        signals: &Vec<Signal>,
        stats: &Vec<Stat>,
    ) -> (shutdown: bool)
        requires
            old(self).wf(),
        ensures
            final(self).wf(),
            final(self).capacity() == old(self).capacity(),
            shutdown == signals@.contains(Signal::Shutdown),
            exists|ws: Seq<MultiWorker<P>>, ds: Seq<Delivery>|
                #[trigger] delivered_each(*old(self), *final(self), messages@, stats@, ws, ds),
            delivered_in_order(*old(self), *final(self), messages@, messages@, stats@),
    {
        let mut i: usize = 0;
        let ghost mut ws: Seq<MultiWorker<P>> = seq![*self];
        let ghost mut ds: Seq<Delivery> = Seq::empty();
        while i < messages.len()
            invariant
                delivered_each(*old(self), *self, messages@.subrange(0, i as int), stats@, ws, ds),
                self.wf(),
                self.capacity() == old(self).capacity(),
                i <= messages@.len(),
                self.slots().len() == old(self).slots().len(),
                delivered_in_order(*old(self), *self, messages@.subrange(0, i as int), messages@, stats@),
            decreases messages@.len() - i,
        {
            let ghost before = *self;
            assert(messages@.subrange(0, i as int).len() == i);
            let (request, response, token) = &messages[i];
            let d = self.handle_response(request, response, *token, stats);
            let ghost m = messages@.subrange(0, i + 1);
            proof {
                let ws1 = ws.push(*self);
                let ds1 = ds.push(d);
                assert forall|j: int| 0 <= j < m.len() implies #[trigger] response_effect(
                    ws1[j],
                    ws1[j + 1],
                    m[j].1,
                    m[j].2,
                    stats@,
                    ds1[j],
                ) by {
                    if j < i {
                        assert(m[j] == messages@.subrange(0, i as int)[j]);
                    }
                }
                ws = ws1;
                ds = ds1;
            }
            proof {
                assert(m.drop_last() =~= messages@.subrange(0, i as int));
                assert(m.last() == messages@[i as int]);
                assert forall|t: usize| quiet_session(*old(self), messages@, t) implies {
                    &&& #[trigger] self.occupied(t as int)
                    &&& self.slots()[t as int]->Some_0.inbound().len() == 0
                    &&& self.slots()[t as int]->Some_0.outbound() == old(self).slots()[t as int]->Some_0.outbound()
                        + bytes_for::<P>(m, t, stats@)
                } by {
                    assert(before.occupied(t as int));
                    if *token == t {
                        assert(!P::hangup_spec(messages@[i as int].1));
                        assert(old(self).slots()[t as int]->Some_0.outbound()
                            + bytes_for::<P>(messages@.subrange(0, i as int), t, stats@)
                            + P::response_spec(*response, stats@)
                            =~= old(self).slots()[t as int]->Some_0.outbound() + bytes_for::<P>(m, t, stats@));
                    } else {
                        assert(self.slots()[t as int] == before.slots()[t as int]);
                    }
                }
            }
            i = i + 1;
            assert(m == messages@.subrange(0, i as int));
            assert(delivered_in_order(*old(self), *self, m, messages@, stats@));
        }
        assert(messages@.subrange(0, messages@.len() as int) =~= messages@);
        assert(delivered_each(*old(self), *self, messages@, stats@, ws, ds));
        handle_signals(signals)
    }

    /// Hands the queued requests to storage, oldest first, and empties the
    /// data queue.
    pub fn take_requests(&mut self) -> (r: Vec<(P::Request, usize)>)
        requires
            old(self).wf(),
        ensures
            final(self).wf(),
            queue_view::<P>(r@) == old(self).outgoing(),
            final(self).outgoing().len() == 0,
            final(self).slots() == old(self).slots(),
            final(self).returned_sessions() == old(self).returned_sessions(),
            final(self).capacity() == old(self).capacity(),
    {
        let mut r: Vec<(P::Request, usize)> = Vec::new();
        core::mem::swap(&mut r, &mut self.data_queue);
        r
    }

    /// Takes the oldest queued request, if any, to hand it to storage.
    pub fn pop_request(&mut self) -> (r: Option<(P::Request, usize)>)
        requires
            old(self).wf(),
        ensures
            final(self).wf(),
            old(self).outgoing().len() == 0 ==> r is None && final(self).outgoing() == old(self).outgoing(),
            old(self).outgoing().len() > 0 ==> r is Some
                && (P::request_view(r->Some_0.0), r->Some_0.1) == old(self).outgoing()[0]
                && final(self).outgoing() == old(self).outgoing().drop_first(),
            final(self).slots() == old(self).slots(),
            final(self).returned_sessions() == old(self).returned_sessions(),
            final(self).capacity() == old(self).capacity(),
    {
        if self.data_queue.len() == 0 {
            return None;
        }
        let ghost dq = self.data_queue@;
        let r = self.data_queue.remove(0);
        assert(queue_view::<P>(self.data_queue@) =~= queue_view::<P>(dq).drop_first());
        Some(r)
    }

    /// Hands the returned sessions to the listener, oldest first.
    pub fn take_returned(&mut self) -> (r: Vec<Session>)
        requires
            old(self).wf(),
        ensures
            final(self).wf(),
            r@ == old(self).returned_sessions(),
            final(self).returned_sessions().len() == 0,
            final(self).slots() == old(self).slots(),
            final(self).outgoing() == old(self).outgoing(),
            final(self).capacity() == old(self).capacity(),
    {
        let mut r: Vec<Session> = Vec::new();
        core::mem::swap(&mut r, &mut self.session_queue);
        r
    }

    /// The staged outbound bytes of slot `token`, if it holds a session.
    pub fn pending_output(&self, token: usize) -> (r: Option<&[u8]>)
        ensures
            self.occupied(token as int) ==> r is Some && r->Some_0@ == self.slots()[token as int]->Some_0.outbound(),
            !self.occupied(token as int) ==> r is None,
    {
        if token < self.sessions.len() {
            match &self.sessions[token] {
                Some(ss) => Some(ss.outbound_bytes()),
                None => None,
            }
        } else {
            None
        }
    }

    /// The readiness slot `token` asks for, if it holds a session.
    pub fn interest(&self, token: usize) -> (r: Option<Interest>)
        ensures
            self.occupied(token as int) ==> r == Some(Interest {
                readable: true,
                writable: self.slots()[token as int]->Some_0.outbound().len() > 0,
            }),
            !self.occupied(token as int) ==> r is None,
    {
        if token < self.sessions.len() {
            match &self.sessions[token] {
                Some(ss) => Some(ss.interest()),
                None => None,
            }
        } else {
            None
        }
    }
}

/// Reads the admin signals in order until a `Shutdown`; returns whether one
/// came. `FlushAll` is for storage and asks nothing of a worker.
pub fn handle_signals(signals: &Vec<Signal>) -> (shutdown: bool)
    ensures
        shutdown == signals@.contains(Signal::Shutdown),
{
    let mut i: usize = 0;
    while i < signals.len()
        invariant
            i <= signals@.len(),
            forall|k: int| 0 <= k < i ==> signals@[k] != Signal::Shutdown,
        decreases signals@.len() - i,
    {
        match signals[i] {
            Signal::FlushAll => {},
            Signal::Shutdown => {
                return true;
            },
        }
        i = i + 1;
    }
    false
}

} // verus!
