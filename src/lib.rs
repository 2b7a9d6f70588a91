//! A bencode codec: a tree decoder, a pull deserializer, a canonical encoder,
//! and the info-hash of torrent metainfo built on them.
pub mod error;
pub mod model;
pub mod grammar;
pub mod value;
pub mod decode;
pub mod encode;
pub mod laws;
pub mod de;
pub mod metainfo;

pub use de::{Deserializer, Field, Shape, Typed, from_bytes};
pub use decode::{bencode_decode, build_bytes, build_dictionary, build_int, build_list, decode};
pub use encode::encode;
pub use error::Error;
pub use metainfo::{File, Info, Node, Torrent, announce_list_first, decode_torrent, info_hash};
pub use model::MAX_DEPTH;
pub use value::Value;
