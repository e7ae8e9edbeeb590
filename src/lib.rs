//! Rewrites links to status posts of two social sites into links to their
//! embed-friendly mirror sites, leaving the rest of a message untouched.

pub mod status_link;
pub mod scan;
pub mod words;
pub mod laws;
pub mod rewriter;

pub use rewriter::{LinkRewriter, RewriteError, mirror_link, STATUS_LINK_PATTERN};
