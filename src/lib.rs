//! A BitTorrent client core: the bencode codec, the torrent descriptor,
//! tracker and peer wire messages, the chunk scheduler and the saver's
//! bookkeeping, each with its contract.
pub mod bencode;
pub mod torrent;
pub mod tasks;
pub mod coordinator;
pub mod bitmap;
pub mod files;
pub mod peer;
pub mod tracker;
pub mod saver;
pub mod store;
pub mod display;
