use pelikan_core::admin::{AdminProtocol, AdminRequest, AdminResponse};
use pelikan_core::codec::Codec;
use pelikan_core::resp::{RequestParser, Request, Response};
use pelikan_core::stats::Stat;
use pelikan_core::zrem::SortedSetRemove;
use pelikan_core::worker::{
    handle_signals, Delivery, IoEvent, MultiWorker, MultiWorkerBuilder, Session, Signal, WorkerError,
};

fn worker(capacity: usize) -> MultiWorker<AdminProtocol> {
    MultiWorkerBuilder::new(1024, 100, AdminProtocol::default()).build(capacity)
}

fn session(handle: u64) -> Session {
    Session { handle, read_buf: Vec::new(), write_buf: Vec::new() }
}

fn connect<P: Codec>(w: &mut MultiWorker<P>, handle: u64) -> usize {
    let token = w.vacant_token();
    w.accept_session(token, session(handle), true);
    token
}

fn readable(token: usize, bytes: &[u8]) -> IoEvent {
    IoEvent { token, error: false, written: None, read: Some(bytes.to_vec()) }
}

#[test]
fn stats_end_to_end() {
    let mut w = worker(8);
    let t = connect(&mut w, 7);
    assert!(!w.handle_event(readable(t, b"stats\r\n")));
    let requests = w.take_requests();
    assert_eq!(requests, vec![(AdminRequest::Stats, t)]);
    let stats = vec![Stat { name: b"zz".to_vec(), value: 1 }, Stat { name: b"aa".to_vec(), value: 2 }];
    let d = w.handle_response(&AdminRequest::Stats, &AdminResponse::stats(), t, &stats);
    assert_eq!(d, Delivery::Staged);
    assert_eq!(w.pending_output(t).unwrap(), b"STAT aa 2\r\nSTAT zz 1\r\nEND\r\n");
    let i = w.interest(t).unwrap();
    assert!(i.readable && i.writable);
    assert!(!w.handle_event(IoEvent { token: t, error: false, written: Some(100), read: None }));
    assert_eq!(w.pending_output(t).unwrap(), b"");
    assert!(!w.interest(t).unwrap().writable);
}

#[test]
fn partial_write_keeps_rest() {
    let mut w = worker(8);
    let t = connect(&mut w, 1);
    w.handle_response(&AdminRequest::FlushAll, &AdminResponse::ok(), t, &Vec::new());
    assert_eq!(w.write(t, 2), Ok(()));
    assert_eq!(w.pending_output(t).unwrap(), b"\r\n");
    assert_eq!(w.write(99, 1), Err(WorkerError::NoSession));
}

#[test]
fn quit_hangs_up_and_returns_session() {
    let mut w = worker(8);
    let t = connect(&mut w, 42);
    w.handle_event(readable(t, b"quit\r\n"));
    assert_eq!(w.take_requests(), vec![(AdminRequest::Quit, t)]);
    let d = w.handle_response(&AdminRequest::Quit, &AdminResponse::hangup(), t, &Vec::new());
    assert_eq!(d, Delivery::HungUp);
    assert!(!w.contains(t));
    let returned = w.take_returned();
    assert_eq!(returned.len(), 1);
    assert_eq!(returned[0].handle, 42);
    assert!(returned[0].write_buf.is_empty());
    // a later message for the same token does nothing
    let d = w.handle_response(&AdminRequest::Version, &AdminResponse::ok(), t, &Vec::new());
    assert_eq!(d, Delivery::Dropped);
    assert_eq!(w.read(t), Err(WorkerError::NoSession));
    assert!(w.take_returned().is_empty());
}

#[test]
fn pipelined_versions_answered_in_order() {
    let mut w = worker(8);
    let t = connect(&mut w, 3);
    w.handle_event(readable(t, b"version\r\nversion\r\n"));
    // only the first request is forwarded on the readable event
    assert_eq!(w.take_requests(), vec![(AdminRequest::Version, t)]);
    let d = w.handle_response(&AdminRequest::Version, &AdminResponse::version("0.1".to_string()), t, &Vec::new());
    assert_eq!(d, Delivery::Staged);
    // the second one was parsed after the first response was staged
    assert_eq!(w.take_requests(), vec![(AdminRequest::Version, t)]);
    w.handle_response(&AdminRequest::Version, &AdminResponse::version("0.2".to_string()), t, &Vec::new());
    assert_eq!(w.pending_output(t).unwrap(), b"VERSION 0.1\r\nVERSION 0.2\r\n");
    assert!(w.take_requests().is_empty());
}

#[test]
fn full_data_queue_sheds_session() {
    let mut w = worker(1);
    let a = connect(&mut w, 1);
    let b = connect(&mut w, 2);
    assert_ne!(a, b);
    assert!(!w.handle_event(readable(a, b"stats\r\n")));
    // the queue is now full; the next request closes its session
    assert!(w.handle_event(readable(b, b"version\r\n")));
    assert!(!w.contains(b));
    assert_eq!(w.take_requests(), vec![(AdminRequest::Stats, a)]);
    let returned = w.take_returned();
    assert_eq!(returned.len(), 1);
    assert_eq!(returned[0].handle, 2);
}

#[test]
fn partial_request_waits() {
    let mut w = worker(4);
    let t = connect(&mut w, 5);
    assert!(!w.handle_event(readable(t, b"vers")));
    assert!(w.take_requests().is_empty());
    assert!(!w.handle_event(readable(t, b"ion\r\n")));
    assert_eq!(w.take_requests(), vec![(AdminRequest::Version, t)]);
}

#[test]
fn invalid_request_closes() {
    let mut w = worker(4);
    let t = connect(&mut w, 5);
    assert!(w.handle_event(readable(t, b"bogus\r\n")));
    assert_eq!(w.take_returned().len(), 1);
}

#[test]
fn eof_and_error_close() {
    let mut w = worker(4);
    let a = connect(&mut w, 1);
    let b = connect(&mut w, 2);
    assert!(w.handle_event(readable(a, b"")));
    assert!(w.handle_event(IoEvent { token: b, error: true, written: None, read: None }));
    let handles: Vec<u64> = w.take_returned().iter().map(|s| s.handle).collect();
    assert_eq!(handles, vec![1, 2]);
    // both slots are free again and get reused
    assert_eq!(w.vacant_token(), a);
}

#[test]
fn failed_registration_returns_session() {
    let mut w = worker(4);
    let t = w.vacant_token();
    w.accept_session(t, session(9), false);
    assert!(!w.contains(t));
    assert_eq!(w.take_returned()[0].handle, 9);
}

#[test]
fn shutdown_after_batch() {
    let mut w = worker(4);
    let t = connect(&mut w, 1);
    let messages = vec![
        (AdminRequest::FlushAll, AdminResponse::ok(), t),
        (AdminRequest::Version, AdminResponse::version("9".to_string()), t),
    ];
    let stop = w.handle_wake(messages, &vec![Signal::FlushAll, Signal::Shutdown], &Vec::new());
    assert!(stop);
    // the batch was composed before the worker stopped
    assert_eq!(w.pending_output(t).unwrap(), b"OK\r\nVERSION 9\r\n");
}

#[test]
fn signals_without_shutdown_continue() {
    assert!(!handle_signals(&vec![Signal::FlushAll]));
    assert!(!handle_signals(&Vec::new()));
    assert!(handle_signals(&vec![Signal::Shutdown, Signal::FlushAll]));
}

#[test]
fn zrem_session_through_worker() {
    let mut w = MultiWorkerBuilder::new(64, 100, RequestParser::new()).build(8);
    let t = connect(&mut w, 11);
    let bytes = b"*5\r\n$4\r\nZREM\r\n$1\r\nz\r\n$1\r\na\r\n$1\r\nb\r\n$1\r\nc\r\n";
    assert!(!w.handle_event(readable(t, bytes)));
    let mut requests = w.take_requests();
    assert_eq!(requests.len(), 1);
    let (request, token) = requests.pop().unwrap();
    assert_eq!(token, t);
    assert_eq!(request, Request::SortedSetRemove(SortedSetRemove::new(b"z", &[b"a", b"b", b"c"])));
    let d = w.handle_response(&request, &Response::Integer(3), t, &Vec::new());
    assert_eq!(d, Delivery::Staged);
    assert_eq!(w.pending_output(t).unwrap(), b":3\r\n");
}

#[test]
fn resp_session_partial_then_complete() {
    let mut w = MultiWorkerBuilder::new(64, 100, RequestParser::new()).build(8);
    let t = connect(&mut w, 12);
    assert!(!w.handle_event(readable(t, b"ZREM z a")));
    assert!(w.take_requests().is_empty());
    assert!(!w.handle_event(readable(t, b" b\r\n")));
    let requests = w.take_requests();
    assert_eq!(requests, vec![(Request::SortedSetRemove(SortedSetRemove::new(b"z", &[b"a", b"b"])), t)]);
    assert!(w.handle_event(readable(t, b"GET z\r\n")));
    assert_eq!(w.take_returned().len(), 1);
}
