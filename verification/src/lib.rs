//! A frecency index of visited directories: every directory carries a rank
//! that grows with each visit and a time stamp of the latest one, and a query
//! is answered by the matching directory whose rank, weighted by how recent
//! that visit was, is the highest.
//!
//! - `dir`: an entry, the list of entries, the score and the display lines.
//! - `codec`: the stored form of a list, with encoding and decoding.
//! - `ieee`: a rank as the double that stands in a stored entry.
//! - `wire`: the bytes of single values, as `bincode` writes and reads them.
//! - `db`: the index of one invocation with visits, aging and queries.
//! - `query`: which paths the keywords of a query select.
//! - `add`: which of the paths that a user names are recorded.
//! - `config`: the settings, worked out from what the environment holds.
//! - `globs`: the patterns of excluded directories, as `glob` applies them.
//! - `error`: the ways in which an invocation ends early.
//! - `text`: numbers in decimal and other small work on text.

pub mod add;
pub mod codec;
pub mod config;
pub mod db;
pub mod dir;
pub mod error;
pub mod globs;
pub mod ieee;
pub mod query;
pub mod text;
pub mod wire;
