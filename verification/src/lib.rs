//! A verified bencode codec: the value model used by BitTorrent metadata,
//! a recursive-descent decoder, a canonical (sorted-key) encoder, a JSON-like
//! projection for display, and the SHA-1 info-hash derivation.

pub mod cli;
pub mod decode;
pub mod encode;
pub mod json;
pub mod laws;
pub mod torrent;
pub mod value;

pub use cli::Cli;
pub use cli::Commands;
pub use decode::decode_bencoded_value;
pub use encode::integer_bencode;
pub use encode::list_bencode;
pub use encode::string_bencode;
pub use json::JsonValue;
pub use torrent::calculate_hash;
pub use torrent::get_info_announce;
pub use torrent::get_info_hash;
pub use torrent::get_info_length;
pub use value::Bencode;
pub use value::BencodeError;
pub use value::InfoDict;
