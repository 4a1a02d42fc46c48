//! Dense packing of bounded integer fields into one `u64`, and the state of a
//! small grid game that is stored in such a word between frames.
pub mod cheeky_encoding;
pub mod snake;
