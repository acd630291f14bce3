//! A minimal self-describing text-based object notation: a sequence of
//! tagged, length-prefixed records of the shape `name|length~content`,
//! where `content` may itself recursively contain records of the same shape.

pub mod error;
pub mod laws;
pub mod model;
pub mod record;
pub mod strutil;

pub use error::Error;
pub use record::MiniON;
