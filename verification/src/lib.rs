//! Caching of BeatSaver map data for DumbRequestManager.
//!
//! The library decides which maps are cached, turns BeatSaver map data into
//! the compact records that the cache file holds, keeps the cache as a map
//! from map id to record, applies the live updates that the BeatSaver
//! websockets send, and encodes the cache as the Protobuf messages of the
//! gzip-compressed cache file. Reading and writing files and talking to the
//! network happen around it.

pub mod cacher;
pub mod codec;
pub mod settings;
pub mod file;
pub mod mapdata;
pub mod models;
pub mod websocket;
pub mod wire;
