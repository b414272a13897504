//! What players send each other.

pub mod protocol;
