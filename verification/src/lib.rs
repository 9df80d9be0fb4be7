//! A minimal store-less message relay library: wire framing of addressed
//! messages with chunking and reassembly, a session registry assigning peer
//! ids to connections, and routing/broadcast of encoded frames between the
//! per-connection delivery queues.

pub mod codec;
pub mod decimal;
pub mod handler;
pub mod peers;
pub mod registry;
pub mod stream;
