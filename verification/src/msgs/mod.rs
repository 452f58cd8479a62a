//! Wire formats of the record and handshake layers.

pub mod coalescing_laws;
pub mod codec;
pub mod deframer;
pub mod deframer_laws;
pub mod dtls;
pub mod fragmenter;
pub mod fragmenter_laws;
pub mod message;
pub mod reassembly;
pub mod reassembly_laws;
pub mod record;
pub mod wire_laws;
