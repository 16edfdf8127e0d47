//! Brute-force inversion of the generalised Arnold cat map on square images.
//!
//! The crate holds the pixel model, the inverse permutation and its iterated
//! form, the enumeration of the parameter cube, and the smoothness ranking
//! that orders the decoded candidates.

pub mod catmap;
pub mod decode;
pub mod image;
pub mod input;
pub mod params;
pub mod permutation;
pub mod rank;
pub mod score;
pub mod sweep;
pub mod text;
pub mod transform;
