//! Case-insensitive file-name search under a directory tree.
//!
//! The engine validates a root path, walks the tree below it, and reports
//! every regular file whose base name contains the search term,
//! case-insensitively. Results come back either as a vector of records or
//! as one JSON string.

pub mod decode;
pub mod json;
pub mod matching;
pub mod search;

pub use matching::file_name_matches;
pub use search::FileResult;
pub use search::SearchError;
pub use search::search_files;
pub use search::search_files_json;
