//! What the operations are for: how results relate to inputs, and calls to each
//! other.

pub mod exchange;
pub mod index;
pub mod pages;
pub mod signup;
pub mod wire;
pub mod words;
