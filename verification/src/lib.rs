//! A quadtree image codec.
//!
//! Each plane of a YUV 4:2:2 frame is cut into square blocks; a block whose
//! pixels are close enough together becomes one leaf with their average (or
//! with the colour of the leaf before, when that is close enough), any other
//! block is split into four quarters. The leaves and splits are written as
//! bits, packed into bytes after a ten-byte header.
//!
//! - `bits`: the model of bit streams.
//! - `bitwriter`, `bitreader`: writing and reading bits and bytes.
//! - `quadtree`: the model of one block's code.
//! - `plane`: the model of a plane of blocks, and the laws that tie the
//!   decoder to the encoder.
//! - `compress`, `decode`: the encoder and the decoder of a plane.
//! - `format`: the file header, whole frames, and the frame size.
//! - `probe`: the frame size in ffprobe's output.

pub mod bits;
pub mod bitwriter;
pub mod bitreader;
pub mod quadtree;
pub mod plane;
pub mod compress;
pub mod decode;
pub mod format;
pub mod probe;
