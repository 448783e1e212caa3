//! Read from several byte sources as one continuous stream.
//!
//! A `FileInput` reads the contents of each file named (`-` stands for standard
//! input), or standard input when no name is given, one after the other.
pub mod model;
pub mod reader;
pub mod source;
pub mod strategy;
pub mod world;

pub use reader::FileInput;
pub use source::{make_source_vec, Source};
pub use strategy::{ByteStream, IoStrategy};
