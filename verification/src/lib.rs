//! A log-viewing engine: user-authored rule sets ("views") are evaluated
//! against a stream of raw log lines, binding regular-expression captures
//! into named variables that persist across lines, tagging records with a
//! display color, and dropping records that a rule skips.

pub mod filters;
pub mod json;
pub mod process;
pub mod readers;
pub mod varmap;

pub use filters::{Condition, Expression, LogView, Operation, Pattern};
pub use json::{read_view, JsonValue};
pub use process::{process, process_lines, Color, FilterInner, FilteredLogIterator, Record};
pub use readers::{strip_terminator, LineSource, LogReader};
pub use varmap::VarMap;
