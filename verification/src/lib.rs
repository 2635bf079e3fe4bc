//! Incremental-synchronization core of a federated group-messaging server.
//!
//! The crate models the sliding-sync engine (per-connection sticky-parameter
//! caching, room-list windowing, per-room delta computation and the four
//! extension collectors) and the typing-indicator registry as verified
//! functions over plain values.  Storage, transport and the async shell are
//! collaborators: they gather the inputs and perform the emitted actions.

pub mod conn;
pub mod counter;
pub mod e2ee;
pub mod rooms;
pub mod edu;
pub mod ids;
pub mod lists;
pub mod strutil;
pub mod sync;
pub mod todevice;
pub mod todo;
pub mod typing;
