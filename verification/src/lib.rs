//! Core of a batch content-to-HTML site generator.
//!
//! The crate is organised around two phases: a content index (`sitemap`)
//! built once over the whole document tree, and a document renderer
//! (`markdown`) that walks one parsed document and emits HTML, resolving
//! cross-document references against the index.

pub mod strutil;
pub mod slug;
pub mod wikilink;
pub mod counter;
pub mod yamlval;
pub mod frontmatter;
pub mod config;
pub mod sitemap;
pub mod markdown;
