//! Core logic for moving structures between Minecraft Bedrock worlds.
//!
//! The library knows nothing about command-line arguments, files or the
//! network: it takes plain values and returns typed values and typed errors.
pub mod backup;
pub mod catalog;
pub mod config;
pub mod discovery;
pub mod error;
pub mod install;
pub mod inuse;
pub mod leveldat;
pub mod merge;
pub mod mcstructure;
pub mod pack;
pub mod store;
pub mod text;
pub mod worldpacks;
pub mod writemark;

pub use error::CoreError;
