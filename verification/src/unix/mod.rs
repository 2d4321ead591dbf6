//! The parts of the Unix backend that do not talk to GTK or Cairo.
pub mod bitmap;
