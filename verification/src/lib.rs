//! A request template engine: placeholder substitution over plain-text
//! templates, a parser from resolved text to a structured HTTP request,
//! a case-insensitive multi-valued header collection, and a
//! content-type-gated formatter pipeline for request and response bodies.

pub mod error;
pub mod format;
pub mod headers;
pub mod http;
pub mod props;
pub mod template;
