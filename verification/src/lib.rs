//! Chaincord core: the verified logic of a small decentralized chat.
pub mod text;
pub mod relay;
pub mod encoding;
pub mod erasure;
pub mod log;
pub mod rtc;
pub mod keyed;
pub mod peer;
pub mod dial;
pub mod crypto;
pub mod ui;
pub mod node;
pub mod frames;
