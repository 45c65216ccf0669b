//! A file-tree navigator for a terminal Markdown editor: the tree of
//! directory entries, the visible flat list and selection over it, search
//! over the names, the colour configuration and the text of the tree pane.
use vstd::prelude::*;

pub mod paths;
pub mod text;
pub mod tree;
pub mod state;
pub mod app;
pub mod config;

verus! {
} // verus!
