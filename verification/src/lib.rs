//! Library behind the `rr` command line tool.
//!
//! The crate holds the logic of the tool: the sync index layer, the folder
//! checks, the Markdown front end, the notebook assembly and the decisions of
//! the command handlers. Every function carries a contract over the
//! mathematical view of its arguments. Reading files, talking HTTP and
//! printing belong to the application crate.

pub mod cli;
pub mod cloud_api;
pub mod cli_laws;
pub mod cloud_laws;
pub mod codec;
pub mod error;
pub mod events;
pub mod ids;
pub mod markdown;
pub mod notebook;
pub mod order;
pub mod sync_v3;
pub mod text;
pub mod v6;

pub use error::{Error, Result};
