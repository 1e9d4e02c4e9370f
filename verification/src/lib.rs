//! The decision logic of Kagami, a viewer for images, animations and videos
//! that also browses inside zip archives and image-only PDFs.
//!
//! Paths are Unicode text with `/` between their components, and times are whole
//! milliseconds.

// Texts, paths and the browsing order.
pub mod natural;
pub mod path;
pub mod sort;
pub mod text;

// What is browsed.
pub mod archive;
pub mod media;
pub mod scan;

// PDFs as bags of images.
pub mod pdf;
pub mod pdf_extract;
pub mod pdf_load;
pub mod pdf_model;
pub mod pixels;

// From bytes to frames.
pub mod animation;
pub mod budget;
pub mod decode;
pub mod rounding;
pub mod task;

// Background work around the item on screen.
pub mod coord;
pub mod window;

// The view, its videos and their controls.
pub mod browser;
pub mod controls;
pub mod open_docs;
pub mod positions;
pub mod video;
