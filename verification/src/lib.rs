//! Turns a directory of pictures into a video, with every decision proved.
//!
//! `catalog` picks the pictures, `geometry` fits them into a frame, `timing` counts frames and
//! weighs crossfades. `slideshow`, `slider` and `boomerang` say frame by frame what the three
//! programs write, `decoder` what the decoding thread does, `ffmpeg` how the encoder is run, and
//! `text` what is reported. `double` and `integral` are the arithmetic of binary64 numbers in
//! integers, `rounding` and `accuracy` the mathematics behind it.
pub mod accuracy;
pub mod boomerang;
pub mod catalog;
pub mod decoder;
pub mod double;
pub mod ffmpeg;
pub mod geometry;
pub mod integral;
pub mod rounding;
pub mod slider;
pub mod slideshow;
pub mod text;
pub mod timing;
