//! The record layer of Datagram TLS 1.2 and 1.3: headers, fragmentation and
//! reassembly of handshake messages, transcript hashes and record protection.

pub mod crypto;
pub mod datagram;
pub mod enums;
pub mod epoch;
pub mod error;
pub mod hash_hs;
pub mod msgs;
pub mod vecbuf;
