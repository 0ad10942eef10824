//! The signal: how bits become samples, and what is searched for in samples.
pub mod frame;
pub mod search;
pub mod spd;
pub mod sync;
