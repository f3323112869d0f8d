//! Metadata and tracker layer of a peer-to-peer file-sharing client.
//!
//! The crate decodes a torrent descriptor into validated metadata, builds the
//! announce request for the tracker, and decodes the tracker's reply into a
//! poll interval and a list of peer addresses.

pub mod announce;
pub mod decimal;
pub mod decoder;
pub mod digest;
pub mod encoding;
pub mod error;
pub mod fields;
pub mod metainfo;
pub mod percent;
pub mod scalar;
pub mod stuck;
pub mod text;
pub mod tracker;
pub mod unique;
pub mod value;

pub use announce::AnnounceUrl;
pub use decoder::{bencode_from_bytes, decode, MAX_DEPTH};
pub use error::{DecodingError, ErrorKind, Expected, Field, Reason};
pub use metainfo::{BencodeTorrent, Torrent, TorrentFile, TorrentInfo};
pub use tracker::{BencodeTrackerResponse, Peer, ResponseError, TrackerResponse};
pub use value::{Entry, Node, StructuralValue};
