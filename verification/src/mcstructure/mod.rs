//! The `.mcstructure` format: model, validation, and geometry.
pub mod blockdata;
pub mod codec;
pub mod decode;
pub mod encode;
pub mod geometry;
pub mod nbt;

pub use decode::{decode, BlockState, Structure, VOID};
pub use encode::encode;
pub use geometry::{BoundingBox, Coord, Size};
