//! Packed bit-field records: named unsigned fields of 1 to 64 bits laid out
//! back to back, LSB first, in a zero-initialised byte buffer.
//!
//! A schema (an ordered list of [`FieldSpec`]) is checked and turned into a
//! [`Layout`] by [`Layout::resolve`]; each [`PackedRecord`] made from it owns
//! one buffer of exactly the bytes its fields take, read and written through
//! the engine in [`storage`].

pub mod layout;
pub mod record;
pub mod storage;
pub mod width;

pub use layout::{
    FieldSpec, KnownSize, Layout, SchemaError, TotalSize, TotalSizeIsMultipleOf8,
};
pub use record::PackedRecord;
pub use storage::{read_bits, write_bits};
pub use width::{is_legal_width, Bits, Specifier, Zero, MAX_WIDTH, MIN_WIDTH};
