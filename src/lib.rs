//! Sample buffering and bar-spectrum layout for a live audio visualiser.
pub mod ring;
pub mod spectrum;
pub mod wave;
