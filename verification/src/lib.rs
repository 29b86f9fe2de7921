//! Reed–Solomon encoding and Merkle commitment of multilinear polynomials
//! for the WHIR polynomial commitment scheme, over the Goldilocks field.

pub mod commit;
pub mod encoding;
pub mod layout;
pub mod plonky3;
pub mod transcript;
