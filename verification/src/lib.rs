//! Core of a plain-text todo list: tasks with a finished/unfinished status,
//! an ordered list of them, and the two textual forms the list takes — the
//! persisted store (one task per line, in the order of insertion) and the
//! numbered display (unfinished tasks first). Every operation here carries a
//! contract tying it to the mathematical model in `list` and `task`; the
//! broader guarantees (round trip, display ordering, what `check` and
//! `remove` do to the store) are proved in `laws`. File handling and the
//! command line stay outside this crate.

pub mod errors;
pub mod laws;
pub mod list;
pub mod task;
pub mod text;

pub use errors::Error;
pub use errors::ParseError;
pub use list::TaskList;
pub use task::Status;
pub use task::Task;
