//! The command line of the server.
pub use crate::config::{CliError, Config};
