//! Rewrites hyperlinks inside a tree of wiki text files when a referenced
//! file is renamed, so cross-references stay valid.
//!
//! The crate recognizes three link notations (Markdown-style, `[[...]]` wiki
//! links and `{{...}}` transclusions), resolves each link's textual target to
//! an absolute location inside the wiki tree, decides whether it refers to
//! the renamed file, and rewrites the link text to point at the new location
//! while preserving the surrounding delimiters and descriptions.
pub mod laws;
pub mod link;
pub mod location;
pub mod paths;
pub mod wiki;
