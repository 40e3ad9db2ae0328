//! A terminal markdown viewer's core, verified: a markup-to-line
//! transducer, a viewport layout engine with greedy word-wrap and
//! source-to-row coordinate mapping, an in-document and an all-files
//! substring search, the sidebar file tree, and the viewer session state
//! that ties them together. Terminal drawing, key dispatch and all file
//! system access live outside, in the surrounding binary.

pub mod app;
pub mod file_tree;
pub mod layout;
pub mod markdown;
pub mod parse;
pub mod render;
pub mod search;
pub mod text;
