//! Syntax highlighting for the code blocks of an HTML document.
//!
//! A document is text, not a tree: each block of the form
//! `<pre…><code…>…</code></pre>` is found in it, its language is read from the
//! classes of its two tags, its escaped text is decoded and handed to the
//! highlighting engine, and the rendered HTML takes the block's place. Blocks
//! without a known language, and everything between the blocks, stay as they
//! are.

pub mod attrs;
pub mod engine;
pub mod entities;
pub mod languages;
pub mod patterns;
pub mod rewrite;
pub mod text;

pub use attrs::{extract_class_attr, update_or_add_class};
pub use entities::html_unescape;
pub use languages::language_map;
pub use rewrite::{highlight_html, highlight_html_with};
