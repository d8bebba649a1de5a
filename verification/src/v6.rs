//! The v6 page format: the blocks of a typed-text page.

pub mod blocks;
pub mod laws;
pub mod markdown;
pub mod page;
pub mod stream;
