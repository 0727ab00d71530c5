//! The HTTP side of the server: requests, statuses, responses and pages.
pub use crate::handler::{route, Lookup, Step};
pub use crate::html::html_doc;
pub use crate::request::{HTTPRequest, HTTPRequestError};
pub use crate::response::HTTPResponse;
pub use crate::status::HTTPStatus;
