//! The core of an event-driven cache server: the admin line protocol, the
//! memcache `CLIENT_ERROR` reply, the RESP `ZREM` request, the `stats`
//! report, and the decisions of a worker that multiplexes client sessions
//! and exchanges requests and responses with a storage thread.

pub mod admin;
pub mod codec;
pub mod memcache;
pub mod resp;
pub mod stats;
pub mod worker;
pub mod zrem;
