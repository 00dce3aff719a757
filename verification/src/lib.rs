//! A uniform, streamable binary format for recording time-ordered,
//! per-entity numeric measurements, with a reader and writer that enforce
//! the format's structural rules at the API level.
//!
//! A stream is a sequence of blocks, terminated by a `u16` type format of
//! zero. Each block carries a nonzero 16-bit type format, a 16-bit property
//! id, one or more data segments, and a zero `u64` byte count that ends the
//! block; a segment is a `u64` byte count, a `u64` offset instance id and
//! that many payload bytes. All integers travel little-endian, and
//! floating-point values travel as their raw IEEE bit patterns (see
//! [`F32Bits`] and [`F64Bits`]).
//!
//! - [`Type`] maps shape descriptors — one of ten primitive kinds with up to
//!   80 by 80 rows and columns — onto 16-bit wire codes, and back.
//! - [`State`] is a linear progression of capability tokens, each usable
//!   exactly once, that makes it impossible to write or read a block's
//!   fields out of wire order.
//! - The [`Scalar`], [`Vector`] and [`Matrix`] traits, with the
//!   `write_*`/`read_*` functions beside them, serialize whole arrays and
//!   single values, and read offset-addressed segments back into a
//!   destination [`Array`], growing it with zero values where a segment
//!   starts past its end.
//!
//! The contracts of the read functions pin down, byte for byte, which
//! streams are accepted, what the destination holds afterwards and which
//! error each malformed stream earns; the round-trip laws in [`segment`]
//! state that reading back a written block recovers exactly the values
//! that were written.

pub mod read_write;
pub mod segment;
pub mod state;
pub mod stream;
pub mod types;

pub use read_write::read_matrix_array;
pub use read_write::read_matrix_property;
pub use read_write::read_scalar_array;
pub use read_write::read_scalar_property;
pub use read_write::read_vector_array;
pub use read_write::read_vector_property;
pub use read_write::write_matrix_array;
pub use read_write::write_matrix_property;
pub use read_write::write_scalar_array;
pub use read_write::write_scalar_property;
pub use read_write::write_vector_array;
pub use read_write::write_vector_property;
pub use read_write::Array;
pub use read_write::F32Bits;
pub use read_write::F64Bits;
pub use read_write::FixedMatrix;
pub use read_write::FixedVector;
pub use read_write::Matrix;
pub use read_write::Scalar;
pub use read_write::Vector;
pub use state::Bytes;
pub use state::Data;
pub use state::OffsetInstanceId;
pub use state::PropertyId;
pub use state::State;
pub use state::TypeFormat;
pub use stream::Error;
pub use stream::Source;
pub use types::Type;
