//! Lexical cleaning of slash-separated path names.
//!
//! Multiple separators collapse to one, `.` segments vanish, `..` cancels the
//! named segment before it, a rooted path absorbs any `..` that would climb
//! above the root, and a relative path keeps its leading `..` segments. The
//! work is done on the text alone, without consulting any filesystem.
pub mod model;
pub mod lemmas;
pub mod clean;
pub mod text;
pub mod adapter;
pub mod laws;

pub use adapter::{clean_path_text, PathClean};
pub use clean::{clean, clean_internal};
