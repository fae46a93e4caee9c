//! Line search over text: find the lines of a text that contain a query,
//! with an exact and a case-insensitive comparison.
pub mod config;
pub mod search;
pub mod text;

pub use config::{search_with, Config, MISSING_FILENAME, MISSING_QUERY};
pub use search::{search, search_case_insensitive};
pub use text::{contains_str, lines};
