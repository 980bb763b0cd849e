//! A navigable, named hierarchy of adjustable audio-processing controls,
//! addressed through a single packed 64-bit path key that doubles as a
//! resumable depth-first enumeration cursor.

pub mod algoparam;
pub mod keys;
pub mod laws;
