//! Book-keeping for bound transport-layer sockets.
//!
//! The core of the crate is [`bound::BoundSocketMap`], a bidirectional map
//! between socket identifiers and socket addresses that enforces
//! conflict and sharing rules when sockets are inserted or rebound.

pub mod addr;
pub mod bound;
pub mod conn;
pub mod guest;
pub mod id_map;
pub mod index;
pub mod laws;
