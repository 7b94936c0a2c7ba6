//! Verified building blocks of a set of small network programs: an item
//! store for a memcached-like server, the buffer of a TCP relay, the line
//! protocol of a sudoku server, the messages of a UDP clock round trip and of
//! a ttcp transmitter, and the reconnect schedule of a reconnecting client.

pub mod footprint;
pub mod memcached;
pub mod reconnect;
pub mod relay;
pub mod roundtrip;
pub mod sudoku_server;
pub mod ttcp;

pub use memcached::db::Db as MemcachedDb;
