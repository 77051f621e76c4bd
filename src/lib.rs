//! Per-process swap usage: discovery of process directories in a process
//! information tree, and parsing of each process's status record.

pub mod listing;
pub mod status;
pub mod text;

pub use listing::{is_process_subdir, ListedEntry, ProcessEnumerator, ProcessHandle};
pub use status::{parse_status_lines, ProcessStatus, ReadError};
pub use text::is_all_digits;
