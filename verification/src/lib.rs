//! Verified core of a hydrogen-alpha raw-frame processing pipeline.
//!
//! The library owns the pixel-raster engine: bounds-checked storage,
//! elementwise and geometric transforms, centre-of-mass alignment and
//! multi-frame stacking.  Sample values are a type parameter: the engine
//! verifies every dimension check, every index computation and the exact
//! provenance of every output cell, while the sample arithmetic itself is
//! supplied by the caller as closures and is constrained through their
//! contracts.  Raw decoding, image codecs and the command line are external
//! collaborators that hand the engine plain arrays and take plain arrays
//! back.

pub mod imagebuffer;
pub mod mean;
pub mod raw_to_tiff;
