//! A tile world kept by a game server: terrain generation, chunk storage,
//! players, orbs and the binary message protocol.
pub mod codec;
pub mod noise;
pub mod chunk;
pub mod relief;
pub mod player;
pub mod orb;
pub mod world;
pub mod rules;
pub mod hc;
pub mod web;
