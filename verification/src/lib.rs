//! Decoder for European Data Format (EDF) biosignal recordings.
//!
//! An EDF file is a fixed-layout binary file: a 256-byte ASCII header, a
//! field-major signal-metadata block, and a stream of data records holding
//! little-endian 16-bit digital sample codes. The decoder turns such a byte
//! stream into calibrated physical values, kept as exact rationals so that
//! no precision is lost in the rescaling step.

pub mod edf_file;
pub mod error;
pub mod rational;
pub mod reader;
pub mod source;
pub mod text;

pub use crate::edf_file::{EdfFile, Header, SignalHeader};
pub use crate::error::{Error, ErrorKind, HeaderError};
pub use crate::reader::Reader;
pub use crate::source::ByteSource;
