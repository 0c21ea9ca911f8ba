//! A verified S-expression reader and printer.
//!
//! Source text is tokenized and parsed into an [`exp::Exp`] tree by a
//! recursive-descent parser; the printer serializes such trees back to
//! canonical text.  All input and output is byte-oriented: classification
//! of characters is ASCII-based and string contents are kept verbatim.
#![allow(non_snake_case)]

pub mod chars;
pub mod exp;
pub mod num;
pub mod parser;
pub mod printer;
pub mod laws;
