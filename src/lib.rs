//! A sandboxed HEIC/HEIF still-image decoder core.
//!
//! The verified part of this crate is the HEVC in-loop deblocking filter
//! together with the per-picture data it works on: the decoded sample planes,
//! the parameter-set fields it reads and the per-4x4 block metadata grid.
use vstd::prelude::*;

pub mod deblock;
pub mod deblock_lemmas;
pub mod params;
pub mod picture;

verus! {

/// Decoded image data.
#[derive(Debug, Clone)]
pub struct DecodedImage {
    /// Raw pixel data in RGB or RGBA format.
    pub data: Vec<u8>,
    /// Image width in pixels.
    pub width: u32,
    /// Image height in pixels.
    pub height: u32,
    /// Whether the image has an alpha channel.
    pub has_alpha: bool,
}

/// Image metadata read without a full decode.
#[derive(Debug, Clone, Copy)]
pub struct ImageInfo {
    /// Image width in pixels.
    pub width: u32,
    /// Image height in pixels.
    pub height: u32,
    /// Whether the image has an alpha channel.
    pub has_alpha: bool,
}

/// HEIC image decoder.
#[derive(Debug, Default)]
pub struct HeicDecoder {
    _private: (),
}

impl HeicDecoder {
    /// Creates a decoder.
    pub fn new() -> Self {
        HeicDecoder { _private: () }
    }
}

} // verus!
