//! Parser for a book-index document: a restricted markdown dialect listing a
//! table of contents. The parser walks the text once, recognises the list of
//! `[title](destination)` links that precede the first chapter marker, and
//! collects recoverable syntax errors as (message, byte offset) diagnostics.

pub mod errors;
pub mod line_map;
pub mod link;
pub mod scan;
pub mod summary;
pub mod text;

pub use errors::Diag;
pub use errors::ParseError;
pub use line_map::linecol;
pub use link::Link;
pub use link::LinkView;
pub use scan::parse_diags;
pub use scan::parse_entries;
pub use summary::Chapters;
pub use summary::Summary;
pub use summary::links_match;
pub use text::byte_offset;
pub use text::utf8_len;
