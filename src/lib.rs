//! Extraction of question/answer microdata from captured web pages.
//!
//! A page is pre-filtered on its text, split from its protocol headers, and,
//! once parsed into a `tree::Node` forest, searched for Question subtrees.
//! Each subtree is pruned down to its structured-data markup, rendered, and
//! normalised; the results of a page form one `extract::HtmlMinified`.
//!
//! - `text`: character-level normalisation (whitespace runs, marker runs,
//!   text cleaning).
//! - `tree`: the document tree and its attributes, with their models.
//! - `query`: language lookup and Question subtree search.
//! - `prune`: the inside transform, leaf cleanup and empty-node removal.
//! - `render`: markup rendering and the minified form of a subtree.
//! - `extract`: per-page orchestration and result filtering.

pub mod text;
pub mod tree;
pub mod query;
pub mod prune;
pub mod render;
pub mod extract;
