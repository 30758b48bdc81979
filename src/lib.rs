//! A lenient base64-alphabet decoder: it turns any character sequence into
//! the bytes that its symbols pack to, and those bytes into printable text.

pub mod canonical;
pub mod display;
pub mod packing;
pub mod point;
pub mod symbols;

pub use display::{decode_display, is_shown, sanitize};
pub use packing::decode_raw;
pub use point::Point2;
pub use symbols::decode_single;
