//! Tacenta: the verified protocol logic of an end-to-end encrypted messaging
//! stack — the directory's trust core and store, the wire codecs, the rate
//! limiters, the service document, the bounded group policy, and the sealed
//! persisted-state envelope.

pub mod binding;
pub mod codec;
pub mod directory;
pub mod discovery;
pub mod directory_core;
pub mod directory_protocol;
pub mod gateway;
pub mod group;
pub mod ratelimit;
pub mod persist;
pub mod provider;
pub mod relay;
pub mod state_file;
pub mod table;
pub mod text;
