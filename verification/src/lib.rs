//! Conversion between raw text and HTML-safe text.
//!
//! Escaping replaces the characters that are significant to HTML markup with
//! named character references; unescaping decodes HTML character references —
//! named entities, decimal and hexadecimal numeric references — back into the
//! bytes they stand for, following the WHATWG character-reference rules with
//! greedy longest-match resolution and literal fallback for anything that does
//! not form a valid reference.

pub mod ascii;
pub mod entities;
pub mod escape;
pub mod laws;
pub mod unescape;

use vstd::prelude::*;

verus! {

pub use escape::escape_all_quotes;
pub use escape::escape_attribute;
pub use escape::escape_text;
pub use unescape::unescape;
pub use unescape::unescape_with;

} // verus!
