use vstd::prelude::*;
use vstd::string::*;
use vstd::utf8::*;

use crate::status::{comment_view, status_line, status_page, HTTPStatus, IoError};
use crate::text::{append_bytes, decimal, decimal_chars};

verus! {

/// A response: its status, the MIME type of its body (if known), and the
/// body itself.
#[derive(Debug)]
pub struct HTTPResponse<'a> {
    pub status: HTTPStatus<'a>,
    pub mime: Option<&'a str>,
    pub body: Vec<u8>,
}

/// The text of an optional MIME type.
pub open spec fn mime_view(m: Option<&str>) -> Option<Seq<char>> {
    match m {
        Some(t) => Some(t@),
        None => None,
    }
}

/// The error page of `status`, as bytes.
pub open spec fn page_bytes(status: HTTPStatus) -> Seq<u8> {
    encode_utf8(status_page(status.code, status.msg@, comment_view(status.comment)))
}

/// The header of a response whose status is `code` and `msg`, whose body is
/// `len` bytes long and has MIME type `mime`.
pub open spec fn header_text(code: usize, msg: Seq<char>, len: nat, mime: Option<Seq<char>>) -> Seq<
    char,
> {
    status_line(code, msg) + "\r\nContent-Length: "@ + decimal_chars(len) + "\r\n"@ + match mime {
        Some(t) => "Content-Type: "@ + t + "\r\n"@,
        None => Seq::empty(),
    } + "Connection: close\r\n\r\n"@
}

impl<'a> HTTPResponse<'a> {
    /// The header of this response as text.
    pub open spec fn header_view(&self) -> Seq<char> {
        header_text(self.status.code, self.status.msg@, self.body@.len(), mime_view(self.mime))
    }

    /// A response with `status` whose body is the content read, or, where
    /// reading failed, the status' error page as HTML.
    pub fn new(status: HTTPStatus<'a>, mime: Option<&'a str>, body: Result<Vec<u8>, IoError>) -> (r:
        HTTPResponse<'a>)
        ensures
            r.status == status,
            body matches Ok(b) ==> r.mime == mime && r.body@ == b@,
            body is Err ==> (r.mime matches Some(m) && m@ == "text/html"@) && r.body@ == page_bytes(
                status,
            ),
    {
        match body {
            Ok(b) => HTTPResponse { status, mime, body: b },
            Err(_) => HTTPResponse::from_status(status),
        }
    }

    /// The response that carries the error page of `status`, as HTML.
    pub fn from_status(status: HTTPStatus<'a>) -> (r: HTTPResponse<'a>)
        ensures
            r.status == status,
            r.mime matches Some(m) && m@ == "text/html"@,
            r.body@ == page_bytes(status),
    {
        let page = status.to_html();
        let body = page.as_str().as_bytes_vec();
        HTTPResponse { status, mime: Some("text/html"), body }
    }

    /// The response that reports a file system failure with its error page.
    pub fn from_io_error(error: IoError) -> (r: HTTPResponse<'a>)
        ensures
            r.status.code == crate::status::code_of_kind(error.kind),
            r.status.msg@ == crate::status::reason_phrase(r.status.code),
            comment_view(r.status.comment) == comment_view(error.message),
            r.mime matches Some(m) && m@ == "text/html"@,
            r.body@ == page_bytes(r.status),
    {
        HTTPResponse::from_status(HTTPStatus::from_io_error(&error))
    }

    /// The header of this response: status line, `Content-Length`, the
    /// `Content-Type` where the MIME type is known, and `Connection: close`.
    pub fn header(&self) -> (r: Vec<u8>)
        ensures
            r@ == encode_utf8(self.header_view()),
    {
        let mut text = self.status.to_string();
        text.append("\r\nContent-Length: ");
        let len = decimal(self.body.len());
        text.append(len.as_str());
        text.append("\r\n");
        match self.mime {
            Some(t) => {
                text.append("Content-Type: ");
                text.append(t);
                text.append("\r\n");
            },
            None => {},
        }
        text.append("Connection: close\r\n\r\n");
        assert(text@ =~= self.header_view());
        text.as_str().as_bytes_vec()
    }

    /// What is sent in answer to a request with `method`: the header alone
    /// for HEAD, the header and the body otherwise.
    pub fn into_bytes_for(self, method: &str) -> (r: Vec<u8>)
        ensures
            method@ == "HEAD"@ ==> r@ == encode_utf8(self.header_view()),
            method@ != "HEAD"@ ==> r@ == encode_utf8(self.header_view()) + self.body@,
    {
        if crate::text::str_equal(method, "HEAD") {
            self.header()
        } else {
            self.into_bytes()
        }
    }

    /// The whole response on the wire: the header, then the body.
    pub fn into_bytes(self) -> (r: Vec<u8>)
        ensures
            r@ == encode_utf8(self.header_view()) + self.body@,
    {
        let mut out = self.header();
        append_bytes(&mut out, self.body.as_slice());
        out
    }
}

} // verus!
