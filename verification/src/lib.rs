//! ascii-world: an image-to-ASCII engine built for agent workflows.
//!
//! The library exposes the full pipeline: load pixels with [`input`], pick a
//! [`charset`], run [`engine::convert`] to get an [`engine::AsciiGrid`], then
//! serialize it with one of the [`render`] functions or paint it with
//! [`paint::paint_png`]. [`anim`] and [`video`] loop that same pipeline over
//! frames; [`pipeline`], [`mcp`] and [`web`] are what the command line, the server
//! and the browser call.
//!
//! Floating-point arithmetic is done on encodings, by [`float`], so that every
//! pixel and every character has a meaning that can be stated and proved.

pub mod anim;
pub mod charset;
pub mod engine;
pub mod float;
pub mod font;
pub mod input;
pub mod json;
pub mod mcp;
pub mod paint;
pub mod paths;
pub mod pipeline;
pub mod pixels;
pub mod render;
pub mod text;
pub mod video;
pub mod web;
