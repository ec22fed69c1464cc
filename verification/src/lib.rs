//! Parsing and re-serialization of Debian-style changelog documents.
//!
//! A changelog is a sequence of entries; each entry has a header line
//! (package, version, distributions, metadata), an indented body of change
//! items, and a footer line naming the author, email and an RFC 2822 date.
//! [`Entry`] holds one parsed record, [`ChangelogIter`] walks successive
//! entries out of a single text buffer.

pub mod date;
pub mod entry;
pub mod grammar;
pub mod iter;
pub mod laws;
pub mod text;

pub use entry::Entry;
pub use entry::EntryError;
pub use iter::ChangelogIter;
