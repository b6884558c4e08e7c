//! Finding classified images again by an approximate query.
//!
//! An image classifier names what it sees in an image by labels. This library
//! normalizes such labels, and the queries typed later, to stems, keeps them
//! in records, and ranks the records of a corpus by the edit distance between
//! their stems and the stem of a query.
//!
//! - [`tokenizer`] splits a text at whitespace.
//! - [`normalize`] turns a text into its phrase and its stem.
//! - [`label`] does so for every synonym of a label.
//! - [`classify`] holds the records of classified images.
//! - [`distance`] defines the edit distance.
//! - [`ranking`] orders scores, and [`search`] puts all of it together.
//! - [`span`] relates characters and byte positions.

pub mod classify;
pub mod distance;
pub mod label;
pub mod normalize;
pub mod ranking;
pub mod search;
pub mod span;
pub mod tokenizer;
