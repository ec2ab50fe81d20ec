//! A small markup tokenizer and tree builder.
//!
//! The library works in two strictly ordered passes. [`Scanner::parse`]
//! walks a byte buffer once, left to right, and produces a flat sequence
//! of [`Token`]s: tag names, closing tags, raw attribute slices, text
//! runs and comment bodies. [`Scanner::lexer`] then consumes that token
//! sequence once and rebuilds the nesting structure as a single
//! [`NodeTree`], using an explicit stack and a depth-merge repair rule
//! for unbalanced documents.
//!
//! Both passes carry full functional contracts: the token stream is
//! pinned down by a specification-level state machine over the input
//! bytes, and the tree by a specification-level fold over the token
//! models.

pub mod status;
pub mod token;
pub mod scan;
pub mod tree;

pub use scan::ScanError;
pub use scan::Scanner;
pub use token::Token;
pub use token::Tokenizer;
pub use tree::NodeTree;
