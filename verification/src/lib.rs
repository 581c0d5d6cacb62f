//! Collect CI log annotations, accumulate them in a durable cache, and
//! publish them as a single pull-request review that replaces the bot's
//! previous one.
//!
//! - `message`: the annotation line grammar, severities, and the review
//!   formatter.
//! - `cache`: the persisted snapshot codec, with its lossless round trip.
//! - `api`: wire objects and the delete-then-submit publication protocol.
//! - `cli`: the prepare and commit steps and the pull-request address.
//! - `text`: character-level helpers the other modules share.

pub mod api;
pub mod cache;
pub mod cli;
pub mod message;
pub mod text;
