//! A minimal just-in-time assembler for the 64-bit ARM instruction set.
//!
//! Callers build named routines out of encoded instructions, push them into
//! an assembler together with shared constants, and finalize the whole set
//! into one contiguous image in which every symbolic reference has been
//! resolved to a concrete relative displacement.

pub mod assembler;
pub mod laws;
pub mod mem;
pub mod raw;
pub mod reg;
pub mod routine;
