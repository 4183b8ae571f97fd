//! Content-addressed storage of byte streams as trees of encrypted,
//! fixed-size blocks: encoding and decoding, the URNs of capabilities and
//! references, the decisions of fetching a block from peers, and the
//! decisions of the HTTP interface.

pub mod api;
pub mod cipher;
pub mod decode;
pub mod encode;
pub mod hash;
pub mod resolver;
pub mod roundtrip;
pub mod text;
pub mod types;
pub mod urn;
