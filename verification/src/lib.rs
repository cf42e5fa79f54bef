//! Reading, writing and validating UF2 firmware images.
//!
//! A UF2 image is a sequence of 512-byte blocks; each block carries up to
//! 476 bytes of payload: the data itself, optionally followed by extensions
//! and a trailing checksum.
use vstd::prelude::*;

pub mod block;
pub mod decimal;
pub mod digest;
pub mod extension;
pub mod file;
pub mod flags;

pub use block::{Block, Checksum, Extension};
pub use file::Uf2File;
pub use flags::Flags;

verus! {

} // verus!
