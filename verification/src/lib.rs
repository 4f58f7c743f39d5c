//! A verified codec for the QOI ("Quite OK Image") lossless image format.
//!
//! The encoder turns a row-major RGBA pixel buffer into a QOI byte stream;
//! the decoder parses a QOI byte stream back into pixels. Both sides keep
//! the same predictor state (previous pixel and a 64-entry hash cache), and
//! a proved round-trip law states that decoding an encoded image yields the
//! original pixels.

pub mod codec;
pub mod decoder;
pub mod encoder;
pub mod laws;
pub mod ops;
pub mod pixel;

pub use codec::QoiError;
pub use decoder::Decoder;
pub use encoder::Encoder;
pub use pixel::Image;
pub use pixel::Pixel;
