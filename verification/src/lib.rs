//! Class-name completions for stylesheets.
//!
//! From a set of CSS files the engine builds a list with one entry for every
//! class name of every file: the class name, and the text of each rule set of
//! that file whose selector mentions the class. What a file gave is cached
//! under its path until the path is invalidated, and the list is always
//! derived from the whole cache.
//!
//! - [`syntax`] holds the grammar adapter: the parser and the class-selector
//!   query, and the plain values in which their findings are handed on.
//! - [`extract`] turns the matches of the query in one file into the classes
//!   of the file.
//! - [`cache`] keeps the classes of each file under the file's path.
//! - [`aggregate`] derives the ordered completion list from the cache.
//! - [`serialize`] writes the list as JSON.
//! - [`request`] says what a request does to the cache.
//! - [`engine`] is the entry point that ties them together.
//! - [`diagnostics`] are the records of everything that was skipped.
//! - [`text`] holds the order of texts, joining and byte-range slicing.

pub mod aggregate;
pub mod cache;
pub mod diagnostics;
pub mod engine;
pub mod extract;
pub mod request;
pub mod serialize;
pub mod syntax;
pub mod text;

pub use engine::{AutocompletionEngine, Completions};
pub use request::SourceFile;
