//! Line-oriented text search: which lines of a text contain a query, with or
//! without regard to letter case, and the validation of the command-line
//! arguments that name the query and the file.

pub mod config;
pub mod encoding;
pub mod lines;
pub mod lowercase;
pub mod runner;
pub mod search;
pub mod substring;

pub use config::{Argument, ArgumentError, Config, CASE_INSENSITIVE_VARIABLE};
pub use runner::{run, Report};
pub use search::{search, search_case_insensitive};
