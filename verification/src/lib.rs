//! Presentation logic for a pretty commit-history viewer: label colors,
//! changed-file trees, conventional-commit badges and relative times.
//!
//! The library turns plain values (texts, times, lists of paths) into the
//! lines that the viewer prints. Reading the repository and the terminal is
//! left to the program around it.
//!
//! - `colors`: the color of a label and the color that a hex string names.
//! - `style`: styled text and its painting with terminal escape codes.
//! - `text`: names, paths, lines and numerals as sequences of characters.
//! - `time`: how long ago a moment was.
//! - `display`: commit summaries and the header lines of the reports.
//! - `icons`: the tree of changed files, built, collapsed and rendered.
//! - `report`: the lines of a commit, of a diff and of the log.
//! - `git`, `cli`: names of references and what the command line asks for.
//! - `tree_model`: what building, collapsing and laying out a tree mean.
//! - `order`, `tree_laws`, `build_laws`, `collapse_laws`, `node_laws`,
//!   `layout_laws`: what is proved of names and trees.

pub mod build_laws;
pub mod cli;
pub mod collapse_laws;
pub mod colors;
pub mod display;
pub mod git;
pub mod icons;
pub mod layout_laws;
pub mod node_laws;
pub mod order;
pub mod report;
pub mod style;
pub mod text;
pub mod time;
pub mod tree_laws;
pub mod tree_model;
