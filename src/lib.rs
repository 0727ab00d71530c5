//! A simple static file server: requests are parsed, their paths resolved
//! inside the served directory, and files, directory listings or error pages
//! sent back, by a fixed pool of worker threads.
use vstd::prelude::*;

pub mod cli;
pub mod config;
pub mod files;
pub mod handler;
pub mod html;
pub mod http;
pub mod listing;
pub mod mime;
pub mod multiprocessing;
pub mod path;
pub mod pool;
pub mod request;
pub mod response;
pub mod status;
pub mod text;

verus! {

} // verus!
