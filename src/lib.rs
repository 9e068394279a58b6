//! A small markdown parser that turns a document into a tree of typed tokens, each holding
//! byte ranges into the document rather than copies of its text.
//!
//! Parsing runs in two phases: the document is split into blocks, which are classified as
//! headers, block quotes, images or paragraphs; the text of each block is then scanned for
//! code spans, bold spans, links and plain text.
pub mod block;
pub mod inline;
pub mod parser;
pub mod scan;
pub mod token;
