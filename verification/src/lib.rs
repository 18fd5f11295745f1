//! Verified core of an LED-marker detection pipeline.
//!
//! A camera frame is resized and band-pass filtered into a binary mask of
//! bright areas; connected components of the mask become candidate bounding
//! boxes, which are filtered by size, classified by color and mapped back to
//! the original frame's coordinate space.

pub mod angles;
pub mod bounding_box;
pub mod car;
pub mod cheats;
pub mod colors;
pub mod command;
pub mod distance;
pub mod error;
pub mod led_detector;
pub mod math;
pub mod nal;
pub mod positioning;
pub mod preprocessor;
pub mod raster;
pub mod utils;
