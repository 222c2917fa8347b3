//! A small line-oriented text search library.
//!
//! Given a query string and the full contents of a text file, the search
//! functions return every line of the contents that contains the query as a
//! contiguous substring, in original order, either case-sensitively or after
//! simple ASCII case folding. A configuration resolver validates positional
//! arguments and an environment toggle into an immutable `Config` value.

pub mod config;
pub mod search;
pub mod text;

pub use config::Config;
pub use config::ConfigError;
pub use search::search;
pub use search::search_case_insensitive;
