//! QuickLZ is a fast compression algorithm. This library implements the
//! algorithm version 1.5.0. Compression and decompression are implemented for
//! the compression levels 1 and 3.
//!
//! [`compress`] and [`decompress`] work on bytes in memory. A [`Decoder`] is fed
//! with the bytes that it asks for, wherever they come from.
//!
//! What a stream means is defined in [`state`], what data are compressed to in
//! [`matching`] and [`format`]. That decompression undoes compression is shown in
//! [`roundtrip`]; [`laws`] has what holds of every input. [`fields`] says which bits of a
//! stream mean what, [`steps`] what each step of decompression does, [`choices`] and
//! [`runs`] which references compression chooses and how small data get, and [`calls`]
//! what the functions of the library give.

pub mod bits;
pub mod bytes;
pub mod calls;
pub mod choices;
pub mod decoder;
pub mod encoder;
pub mod error;
pub mod fields;
pub mod follow;
pub mod format;
pub mod laws;
pub mod layout;
pub mod level;
pub mod matching;
pub mod reference;
pub mod roundtrip;
pub mod runs;
pub mod search1;
pub mod search3;
pub mod size;
pub mod state;
pub mod steps;
pub mod table;
pub mod writer;

pub use bytes::read_u24;
pub use decoder::{decompress, Decoder};
pub use encoder::{compress, MAX_DATA_LEN};
pub use error::{Error, IoError};
pub use level::CompressionLevel;
pub use reference::copy_buffer_bytes;
pub use table::{hash, is_eq, update_hashtable, HASHTABLE_SIZE};
