//! A minimal peer-to-peer file-transfer library: a bencode decoder and
//! encoder, a torrent metadata model, the fixed 68-byte peer handshake,
//! length-prefixed peer message framing, and the block-by-block piece
//! download state machine. All byte-level parsing and framing is verified;
//! network and file transport live outside this crate.

pub mod codec;
pub mod digest;
pub mod download;
pub mod encode;
pub mod hexcode;
pub mod peer;
pub mod render;
pub mod torrent;
pub mod util;
pub mod value;
