//! A small line-oriented text search: the lines of a text that contain a
//! query, in the order of the text, and the two command-line arguments that
//! say what to search for and where.

pub mod config;
pub mod encoding;
pub mod lines;
pub mod model;
pub mod search;

pub use config::Config;
pub use config::ConfigView;
pub use config::INSUFFICIENT_ARGUMENTS;
pub use search::search;
pub use search::search_alternative;
