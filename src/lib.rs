//! A relay that reframes one upstream byte stream into delimited messages and
//! broadcasts each message to every registered subscriber.
//!
//! The library holds the decisions of the relay: framing of the upstream
//! stream, the upstream connector's session, and the broker that owns the
//! subscriber set and the upstream lifecycle. Sockets, threads and channels
//! stay with the caller, which performs each action and reports its outcome.

pub mod broker;
pub mod connector;
pub mod framer;
