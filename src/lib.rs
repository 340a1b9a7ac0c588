//! A music library's core: the catalog of artists, albums, songs and covers; the
//! playback queue; the commands that change them and keep every connected client in
//! step; their binary encoding; the per-song payload cache; and the get channel on
//! which clients fetch covers and song files.
pub mod cache;
pub mod codec;
pub mod command;
pub mod database;
pub mod entity;
pub mod get;
pub mod queue;
pub mod queue_spec;
mod random;
