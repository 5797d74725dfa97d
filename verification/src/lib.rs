pub mod display;
pub mod entry;
pub mod history;
pub mod laws;
pub mod numeric;
pub mod parser;
pub mod search;
pub mod text;
pub mod writer;

pub use display::{apply_limit_and_reverse, format_entry, format_entry_line, format_listing};
pub use entry::{Entry, SearchMode};
pub use history::{new_entry, new_entry_at, History};
pub use parser::parse_all;
pub use search::{delete_mode, make_predicate, matches_text, search_mode, Predicate};
pub use writer::write_entry;
