//! One-shot BitTorrent Mainline DHT peer lookup.
//!
//! The crate resolves a torrent's 160-bit info-hash to peer addresses by
//! iterative closest-node search over UDP. It holds the verified core:
//! the bencode wire codec, the KRPC get_peers message layer, the compact
//! node/peer encodings, and the round logic of the lookup engine. The
//! UDP socket work itself stays with the caller, which feeds each round's
//! replies back into the engine.

pub mod bencode;
pub mod compact;
pub mod krpc;
pub mod lookup;
