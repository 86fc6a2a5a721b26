//! Semantic-version tag resolution and bumping.
//!
//! The crate parses tag names as semantic versions, selects the current
//! version among a repository's tags (either globally or among the tags on
//! the checked-out commit), and computes the next version by incrementing a
//! chosen component.

pub mod bump;
pub mod fmt;
pub mod num;
pub mod order;
pub mod parse;
pub mod select;
pub mod text;
pub mod version;
