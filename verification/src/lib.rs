//! Library for turning a live camera feed into a character-art video stream.
//!
//! The crate holds the verified core of the transcoder: the brightness and
//! color model, the falling-rain simulation, the glyph cache assembly, the
//! frame renderer with its bloom post-process, the operator command protocol
//! semantics, and the decision logic of the capture/render/publish pipeline.
//! Frame I/O, font rasterization and thread plumbing live outside the library
//! and hand it plain values.
//!
//! Brightness and intensity values are carried as fixed-point integers in
//! millionths (`fixed::UNIT` = one), so that every arithmetic step is exact
//! and checked.

pub mod fixed;
pub mod config;
pub mod control;
pub mod detect;
pub mod output;
pub mod glyph_cache;
pub mod pipeline;
pub mod rain;
pub mod renderer;
pub mod text;
