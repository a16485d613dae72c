//! Hiding a text message in the least-significant bits of an image's pixel channels, and
//! reading it back.
//!
//! A message travels as a frame: an 8-bit tag naming its encoding, its payload size in bits
//! as a 32-bit number, then the payload, each field most-significant bit first. The frame's
//! bits go, one each, into the least-significant bits of the channels that a fixed walk over
//! the image visits: pixels in row-major order, channels R, G, B and (optionally) A, with
//! pure white or pure black pixels left out on request.
//!
//! - [`bits`]: bit sequences and their values.
//! - [`encoding`]: the choice of encoding for a text, and its payload size.
//! - [`frame`]: building frames and reading texts back out of bit streams.
//! - [`image`]: RGBA buffers and the walk over their channels.
//! - [`codec`]: embedding into and extracting from images.
//!
//! A UTF-16 payload holds one 16-bit code unit for each character, so that every frame this
//! library writes reads back as the text it was made from.
pub mod bits;
pub mod codec;
pub mod encoding;
pub mod frame;
pub mod image;
