//! Detection and normalization of line-ending conventions (LF, CR, CRLF)
//! inside arbitrary byte buffers.
//!
//! The codec decomposes a byte stream losslessly into content segments plus
//! their terminating delimiters, classifies the set of delimiter styles
//! found, and re-serializes the content with a uniform delimiter while
//! preserving whether the final segment was terminated at all.

pub mod codec;
pub mod delim;
pub mod tmpname;
