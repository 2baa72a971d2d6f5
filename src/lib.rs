//! Clause-aligned SQL layout: a tokenizer, a group-balance tracker and a
//! clause segmenter, with the width and padding rules of the aligned output.
pub mod groups;
pub mod keywords;
pub mod layout;
pub mod segmenter;
pub mod tokenizer;
