//! A FastLZ codec: one-shot compression at levels 1 and 2, and decompression
//! that tells the level from the first byte of the stream.
//!
//! The codec works like the FastLZ of the C library of that name: a hash
//! table keyed by the next three bytes points to an earlier place where they
//! may stand, with a single entry per key and no chains. The streams that it
//! writes are not those of the C library byte for byte, but every decoder of
//! the format reads them.
//!
//! A stream is a sequence of records:
//! * If `opc[7:5] == 0b000`, `opc[4:0] + 1` literals follow.
//! * Else the record is a backreference with the initial length
//!   `opc[7:5] + 2` and the high displacement bits `opc[4:0]`.
//!     * If `opc[7:5] == 0b111`, the length is extended: at level 1 by the
//!       next byte, at level 2 by all bytes up to and including the first
//!       that is not 0xff.
//!     * The next byte holds the low displacement bits.
//!     * At level 2, a displacement of all 1 bits is extended by the next
//!       two bytes as a big-endian integer.
//!
//! Only whole inputs are compressed and decompressed: there is no streaming.

pub mod compress;
pub mod decompress;
pub mod roundtrip;
pub mod util;

pub use compress::{CompressError, CompressState, CompressionLevel};
pub use decompress::{decompress_to_buf, decompress_to_vec, DecompressError};
