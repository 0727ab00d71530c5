use vstd::prelude::*;
use vstd::string::*;

use crate::html::{escape_html, escape_text, html_doc, html_page};
use crate::text::{decimal, decimal_chars};

verus! {

/// The kinds of file system failure that the server tells apart.
#[derive(Debug, Clone, Copy, PartialEq, Eq, Structural)]
pub enum IoErrorKind {
    NotFound,
    PermissionDenied,
    Other,
}

/// A failed file system operation: its kind, and the message it carried,
/// where it carried one.
#[derive(Debug)]
pub struct IoError {
    pub kind: IoErrorKind,
    pub message: Option<String>,
}

impl IoError {
    /// A failure of the given kind that carries `message`.
    pub fn new(kind: IoErrorKind, message: &str) -> (r: IoError)
        ensures
            r.kind == kind,
            r.message matches Some(m) && m@ == message@,
    {
        IoError { kind, message: Some(String::from_str(message)) }
    }
}

/// An HTTP status: its code, its reason phrase and an optional comment shown
/// below them on the error page.
#[derive(Debug)]
pub struct HTTPStatus<'a> {
    pub code: usize,
    pub msg: &'a str,
    pub comment: Option<String>,
}

/// The status codes the server answers with.
pub open spec fn is_supported_code(code: usize) -> bool {
    code == 200 || code == 403 || code == 404 || code == 500 || code == 501
}

/// A code as the server answers with it: any code it does not support is
/// folded into 500.
pub open spec fn folded_code(code: usize) -> usize {
    if is_supported_code(code) {
        code
    } else {
        500
    }
}

/// The reason phrase of each supported code; any other code reads as a
/// server error.
pub open spec fn reason_phrase(code: usize) -> Seq<char> {
    reason_str(code)@
}

/// The code that a file system failure of kind `kind` is reported with.
pub open spec fn code_of_kind(kind: IoErrorKind) -> usize {
    match kind {
        IoErrorKind::NotFound => 404,
        IoErrorKind::PermissionDenied => 403,
        IoErrorKind::Other => 500,
    }
}

/// The text of an optional comment.
pub open spec fn comment_view(c: Option<String>) -> Option<Seq<char>> {
    match c {
        Some(s) => Some(s@),
        None => None,
    }
}

/// What follows the reason phrase in the paragraph of an error page: the
/// comment, escaped, as a paragraph of its own.
pub open spec fn comment_html(c: Option<Seq<char>>) -> Seq<char> {
    match c {
        Some(s) => "</p><p>"@ + escape_text(s),
        None => Seq::empty(),
    }
}

/// The error page of a status: its code as title and heading, its reason
/// phrase and comment below.
pub open spec fn status_page(code: usize, msg: Seq<char>, comment: Option<Seq<char>>) -> Seq<char> {
    html_page(decimal_chars(code as nat), decimal_chars(code as nat), msg + comment_html(comment))
}

/// The status line `HTTP/1.1 <code> <reason>`.
pub open spec fn status_line(code: usize, msg: Seq<char>) -> Seq<char> {
    "HTTP/1.1 "@ + decimal_chars(code as nat) + " "@ + msg
}

fn copy_comment(c: &Option<String>) -> (r: Option<String>)
    ensures
        comment_view(r) == comment_view(*c),
{
    match c {
        Some(s) => Some(s.clone()),
        None => None,
    }
}

impl<'a> HTTPStatus<'a> {
    /// A status with the given code, one of those the server answers with,
    /// reason phrase and comment.
    pub fn new(code: usize, msg: &'a str, comment: Option<String>) -> (r: HTTPStatus<'a>)
        requires
            is_supported_code(code),
        ensures
            r.code == code,
            r.msg == msg,
            r.comment == comment,
    {
        HTTPStatus { code, msg, comment }
    }

    /// The status that reports a file system failure: 404 for a missing
    /// file, 403 for a denied one, 500 otherwise; the failure's message
    /// becomes the comment.
    pub fn from_io_error(error: &IoError) -> (r: HTTPStatus<'a>)
        ensures
            r.code == code_of_kind(error.kind),
            r.msg@ == reason_phrase(r.code),
            comment_view(r.comment) == comment_view(error.message),
    {
        let code: usize = match error.kind {
            IoErrorKind::NotFound => 404,
            IoErrorKind::PermissionDenied => 403,
            IoErrorKind::Other => 500,
        };
        let mut r = HTTPStatus::from(code);
        r.comment = copy_comment(&error.message);
        r
    }

    /// The status of the outcome of a file system operation: 200 for
    /// success, otherwise as `from_io_error` reports the failure.
    pub fn from_io_result<T>(result: &Result<T, IoError>) -> (r: HTTPStatus<'a>)
        ensures
            result is Ok ==> r.code == 200 && r.msg@ == "OK"@ && r.comment is None,
            result matches Err(e) ==> r.code == code_of_kind(e.kind) && r.msg@ == reason_phrase(
                r.code,
            ) && comment_view(r.comment) == comment_view(e.message),
    {
        match result {
            Ok(_) => HTTPStatus::from(200),
            Err(e) => HTTPStatus::from_io_error(e),
        }
    }

    /// The error page of this status: the code as title and heading, the
    /// reason phrase and the comment as paragraphs below. The comment may
    /// carry text from a file system error, so its markup is escaped.
    pub fn to_html(&self) -> (r: String)
        ensures
            r@ == status_page(self.code, self.msg@, comment_view(self.comment)),
    {
        let code = decimal(self.code);
        let mut content = String::from_str(self.msg);
        match &self.comment {
            Some(c) => {
                content.append("</p><p>");
                let shown = escape_html(c.as_str());
                content.append(shown.as_str());
            },
            None => {},
        }
        html_doc(code.as_str(), code.as_str(), content.as_str())
    }

    /// The status line, `HTTP/1.1 <code> <reason>`.
    pub fn to_string(&self) -> (r: String)
        ensures
            r@ == status_line(self.code, self.msg@),
    {
        let mut r = String::from_str("HTTP/1.1 ");
        let code = decimal(self.code);
        r.append(code.as_str());
        r.append(" ");
        r.append(self.msg);
        r
    }
}


/// The reason phrase of each supported code, as a string slice; any other
/// code reads as a server error.
pub open spec fn reason_str(code: usize) -> &'static str {
    if code == 200 {
        "OK"
    } else if code == 403 {
        "Forbidden"
    } else if code == 404 {
        "Not Found"
    } else if code == 501 {
        "Not Implemented"
    } else {
        "Internal Server Error"
    }
}

impl<'a> From<usize> for HTTPStatus<'a> {
    /// The status of a code, with its standard reason phrase and no comment;
    /// a code the server does not support becomes 500.
    fn from(code: usize) -> (r: HTTPStatus<'a>) {
        let code: usize = if code == 200 || code == 403 || code == 404 || code == 500 || code
            == 501 {
            code
        } else {
            500
        };
        let msg = if code == 200 {
            "OK"
        } else if code == 403 {
            "Forbidden"
        } else if code == 404 {
            "Not Found"
        } else if code == 501 {
            "Not Implemented"
        } else {
            "Internal Server Error"
        };
        HTTPStatus { code, msg, comment: None }
    }
}

impl<'a> vstd::std_specs::convert::FromSpecImpl<usize> for HTTPStatus<'a> {
    open spec fn obeys_from_spec() -> bool {
        true
    }

    open spec fn from_spec(code: usize) -> HTTPStatus<'a> {
        HTTPStatus { code: folded_code(code), msg: reason_str(code), comment: None }
    }
}

} // verus!
