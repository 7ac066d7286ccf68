//! Atkinson error-diffusion dithering of RGB images onto a fixed palette,
//! with a 5-bit-per-channel lookup table standing in for the nearest-colour
//! search.

pub mod ditherer;
pub mod laws;
pub mod model;
pub mod quantize;
pub mod stencil;

pub use ditherer::dither;
pub use model::DitherError;
pub use quantize::{clamp_u8, div8_round, lut_index_5bit};
pub use stencil::diffusion_targets;
