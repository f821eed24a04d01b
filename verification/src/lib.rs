//! A markup-to-layout core for fixed-page document rendering.
//!
//! The crate turns a semantic document tree (headings, paragraphs, lists,
//! tables, fenced code) into a tree of styled layout blocks.  It contains a
//! path-keyed style-resolution tree, a tokenizer for highlighter-produced
//! inline markup, a run expander, a line-reflow builder, a greedy word-wrap
//! engine and a table column-width balancer.  Glyph rendering, page
//! decoration, font loading and highlighter invocation are left to callers.

pub mod config;
pub mod contents;
pub mod convert;
pub mod reflow;
pub mod strutil;
pub mod style;
pub mod styletree;
pub mod table;
pub mod token;
pub mod wrap;

pub use style::Rgb;
pub use style::Style;
pub use style::StyledRun;
pub use styletree::StyleElement;
pub use convert::ElementNode;
pub use convert::LayoutBlock;
pub use wrap::WordRecord;
