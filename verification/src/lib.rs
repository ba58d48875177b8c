//! Front matter of notes: the `key: value` block between `---` fences at the
//! top of a note's text, read into ordered fields, edited, and written back.
//!
//! - `text`: characters, whitespace, trimming, lines and joining;
//! - `model`: the spec functions that say what each operation computes;
//! - `frontmatter`: the front matter type and its operations, proved against
//!   the model;
//! - `laws`, `round_trip` and `reading_laws`: properties of the operations
//!   and across them.
pub mod text;
pub mod model;
pub mod frontmatter;
pub mod laws;
pub mod round_trip;
pub mod reading_laws;
