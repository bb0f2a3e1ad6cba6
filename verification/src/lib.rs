//! Line-oriented substring search with byte and character spans.
//!
//! * [`matcher`] matches a needle against one line and says where it stands,
//!   in bytes and in characters.
//! * [`search`] runs the matcher over the lines of a text source and numbers
//!   the matching lines.
//! * [`lines`] splits the bytes of a text source into lines.
//! * [`walk`] decides the steps of a walk through a directory tree.
//! * [`occurrence`] and [`offsets`] hold the notions that the contracts are
//!   stated in, and the lemmas about them.

pub mod lines;
pub mod matcher;
pub mod occurrence;
pub mod offsets;
pub mod search;
pub mod walk;

pub use lines::split_lines;
pub use matcher::{determine_needle_char_bounds, search_line_impl, LineMatch};
pub use search::{search_bytes, search_impl, search_lines, Match};
pub use walk::{Action, Event, WalkDir};
