//! Extraction of bounded regions of text from a document, driven by regular
//! expressions: a start pattern and an end pattern delimit each region, an
//! optional third "within" pattern picks anchor lines that expand outward to
//! those boundaries, and output lines may carry an index prefix or a match
//! marker. Recursive mode prepends a separator header to each file's
//! non-empty block of output.

pub mod extract;
pub mod laws;
pub mod line_format;
pub mod rx;
pub mod walk;
