//! Finds the Unicode characters in a document that are not what they look
//! like: bidirectional controls, invisibles, homoglyphs, words that mix
//! scripts, text that is not in NFC, spaces that are not the space, and
//! codepoints with no assigned meaning. It reports them as `U+XXXX`,
//! never as themselves, and never rewrites what it read.

pub mod cli;
pub mod detect;
pub mod escape;
pub mod mcp;
pub mod scan;
pub mod text;
pub mod unicode;
