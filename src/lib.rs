//! Keeps localisation resource files in step with a canonical one: each target ends up with
//! exactly the canonical keys, in the canonical order, with its own values where it had them.
pub mod key;
pub mod laws;
pub mod record;
pub mod rerun;
pub mod sync;
pub mod text;

pub use key::extract_key_from_text;
pub use record::{parse_line_slices, parse_multiline_entry, parse_strings_with_order, StringEntry};
pub use sync::{normalize_lines, reconcile, render_lines, SyncOutcome};
pub use text::split_lines;
