//! The routing core of a line-based chat relay.
//!
//! Each client gives its name and then sends messages addressed to other
//! names; the relay hands every message to the recipients that are connected.
//! This library holds what the relay decides: the wire format (`wire`), the
//! peer registry (`registry`, `roster`), the broker that owns the registry
//! (`broker`), and the reader and the writer of a connection (`reader`,
//! `writer`). `model` states the broker as a mathematical machine and proves
//! its laws; `link` is the channel that carries a peer's lines from the broker
//! to its writer. Sockets, tasks and waiting are left to the program that
//! hosts the library.

pub mod broker;
pub mod link;
pub mod model;
pub mod reader;
pub mod registry;
pub mod roster;
pub mod wire;
pub mod writer;
