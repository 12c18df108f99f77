//! A personal log: timestamped `category: value` entries kept one per line in
//! a text file, and a summary of them per day and per category.

pub mod bucket;
pub mod entry;
pub mod error;
pub mod magnitude;
pub mod message;
pub mod order;
pub mod query;
pub mod render;
pub mod stamp;
pub mod text;
pub mod value;
