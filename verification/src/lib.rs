//! Protocol servers: verified cores.
//!
//! Each module holds the state machines, codecs and rules of one networked
//! protocol; the surrounding I/O lives outside the library.

pub mod broker;
pub mod chat;
pub mod cipher;
pub mod framing;
pub mod lrcp;
pub mod pest;
pub mod speed;
pub mod store;
pub mod util;
