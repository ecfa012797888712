//! Hides text in the least significant bits of the colour channels of a raster
//! image, at positions drawn from a key-seeded traversal.
pub mod bits;
pub mod converter;
pub mod raster;
pub mod steganography;
pub mod transformer;
pub mod traverser;
