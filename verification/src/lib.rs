//! Slippi session protocol.

pub mod crypter;
pub mod crypto;
pub mod discovery;
pub mod dolphin;
pub mod encoding;
pub mod game;
pub mod handshake;
pub mod msg;
pub mod net;
pub mod packet;
pub mod registry;
pub mod server;
pub mod text;
