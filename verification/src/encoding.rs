//! Text encodings.
pub mod pmd2_encoder;
