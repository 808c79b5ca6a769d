//! Core of a BitTorrent v1 download client: the bencode codec, the metainfo model, the
//! peer wire framing, the per-peer session state machine, the piece assembler and the
//! piece scheduler, each with its contract proved.

pub mod value;
pub mod decode;
pub mod encode;
pub mod hash;
pub mod torrent;
pub mod scheduler;
pub mod wire;
pub mod pieces;
pub mod session;
pub mod url;
pub mod magnet;
pub mod tracker;
pub mod config;

pub use config::Config;
pub use decode::{decode_bencode, BencodeError};
pub use encode::encode_bvalue;
pub use magnet::{decode_magnet, decode_magnet_parameters, info_hash_from_hex, MagnetError, MagnetParams};
pub use pieces::{PieceError, PieceManager, PieceOutcome, BLOCK_SIZE};
pub use scheduler::PieceQueue;
pub use session::{extension_handshake, Action, Peer, SessionError};
pub use torrent::{
    calculate_info_hash_from_struct, get_bytestring, get_integer, info_to_bvalue, lookup_bytestring,
    MetainfoError, Torrent, TorrentInfo,
};
pub use tracker::{parse_peers_from_bvalue, peers_from_response, TrackerError};
pub use url::{encode_percent, url_decode, url_encode_bytes};
pub use value::{insert_entry, BValue};
pub use wire::{build_handshake, encode_message, parse_handshake, parse_message, HandshakeError, Message, WireError};
