//! Paths, MIME types and directory listings of the served files.
pub use crate::listing;
pub use crate::mime;
pub use crate::path;
