//! The four passes of the uwu rendition.
pub mod text;
pub mod bitap;
pub mod nyaify;
pub mod stutter;
pub mod emoji;
