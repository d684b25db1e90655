//! Text justification: re-wraps a block of text so that every line except
//! the last is exactly a target width, distributing the leftover spaces
//! evenly between the words of each line, leftmost gaps first. The final
//! line is joined with single spaces and right-padded to the width.

pub mod model;
pub mod justify;
pub mod laws;

pub use justify::JustifyTextExtension;
