use vstd::prelude::*;
use vstd::string::*;

use crate::config::Config;
use crate::mime::{guess_mime_type, mime_of};
use crate::path::{
    decodes_to_text, default_document, names_text, request_target, resolution, resolve, target_name,
};
use crate::request::HTTPRequest;
use crate::response::{page_bytes, HTTPResponse};
use crate::html::{escape_char, escape_text};
use crate::status::{comment_view, status_page, HTTPStatus, IoError, IoErrorKind};
use crate::text::{bytes_equal, str_equal};

verus! {

/// The comment of the response to a method other than GET and HEAD.
pub open spec fn unsupported_comment() -> Seq<char> {
    "Server only supports GET and HEAD requests"@
}

/// The comment of the response to a path that leaves the served directory.
pub open spec fn traversal_comment() -> Seq<char> {
    "Directory traversal is not allowed!"@
}

/// Whether the server answers requests with method `m`.
pub open spec fn is_supported_method(m: Seq<char>) -> bool {
    m == "GET"@ || m == "HEAD"@
}

/// Whether `r` is the HTML error page with the given code, reason phrase
/// and comment.
pub open spec fn is_error_response(r: HTTPResponse, code: usize, msg: Seq<char>, comment: Seq<char>) -> bool {
    &&& r.status.code == code
    &&& r.status.msg@ == msg
    &&& comment_view(r.status.comment) == Some(comment)
    &&& r.mime matches Some(m) && m@ == "text/html"@
    &&& r.body@ == page_bytes(r.status)
}

/// A request that passed the method check and the traversal guard.
#[derive(Debug)]
pub struct Lookup {
    /// The file the request resolved to, inside the served directory.
    pub path: Vec<u8>,
    /// The MIME type of the body, as far as it is known.
    pub mime: Option<&'static str>,
    /// Whether a failed lookup is still to fall back to listing the served
    /// directory.
    pub index_fallback: bool,
}

/// What the server does next for a request.
#[derive(Debug)]
pub enum Step<'a> {
    /// Send this response.
    Respond(HTTPResponse<'a>),
    /// Read the file at this path and report the outcome to `complete`.
    ReadFile(Vec<u8>),
    /// List the directory at this path and report the outcome to `complete`.
    ListDir(Vec<u8>),
}

fn text_html() -> (r: &'static str)
    ensures
        r@ == "text/html"@,
{
    "text/html"
}

fn traversal_denied<'a>() -> (r: HTTPResponse<'a>)
    ensures
        is_error_response(r, 403, "Forbidden"@, traversal_comment()),
{
    HTTPResponse::from_io_error(
        IoError::new(IoErrorKind::PermissionDenied, "Directory traversal is not allowed!"),
    )
}

/// Checks the method of a request and resolves its path below the served
/// directory. A method other than GET and HEAD is answered with 501, a path
/// whose escapes do not decode to text with 404 (it names no file the
/// server serves), a path that leaves the served directory with 403;
/// otherwise the lookup of the resolved file begins.
pub fn route<'a>(req: &HTTPRequest, config: &Config) -> (r: Result<Lookup, HTTPResponse<'a>>)
    ensures
        !is_supported_method(req.method@) ==> (r matches Err(resp) && is_error_response(
            resp,
            501,
            "Not Implemented"@,
            unsupported_comment(),
        )),
        is_supported_method(req.method@) && !names_text(req.filepath.spec_bytes()) ==> (
        r matches Err(resp) && resp.status.code == 404 && resp.status.msg@ == "Not Found"@
            && resp.status.comment is None && (resp.mime matches Some(m) && m@ == "text/html"@)
            && resp.body@ == page_bytes(resp.status)),
        is_supported_method(req.method@) && names_text(req.filepath.spec_bytes()) && resolution(
            req.filepath.spec_bytes(),
            config.base_dir@,
        ) is None ==> (r matches Err(resp) && is_error_response(
            resp,
            403,
            "Forbidden"@,
            traversal_comment(),
        )),
        is_supported_method(req.method@) && resolution(
            req.filepath.spec_bytes(),
            config.base_dir@,
        ) is Some ==> (r matches Ok(l) && l.path@ == resolution(
            req.filepath.spec_bytes(),
            config.base_dir@,
        )->0 && l.mime == mime_of(l.path@) && l.index_fallback == (config.list_dir
            && request_target(req.filepath.spec_bytes()) == default_document())),
{
    if !(str_equal(req.method, "GET") || str_equal(req.method, "HEAD")) {
        let status = HTTPStatus::new(
            501,
            "Not Implemented",
            Some(String::from_str("Server only supports GET and HEAD requests")),
        );
        return Err(HTTPResponse::from_status(status));
    }
    let raw = req.filepath.as_bytes();
    if !decodes_to_text(raw) {
        return Err(HTTPResponse::from_status(HTTPStatus::from(404)));
    }
    let path = match resolve(raw, config.base_dir.as_slice()) {
        Some(p) => p,
        None => return Err(traversal_denied()),
    };
    let target = target_name(raw);
    let index = crate::path::default_document_name();
    let is_index = bytes_equal(target.as_slice(), index.as_slice());
    let mime = guess_mime_type(path.as_slice());
    Ok(Lookup { path, mime, index_fallback: config.list_dir && is_index })
}

impl Lookup {
    /// Goes on once it is known whether the resolved path names a directory:
    /// a file is read; a directory is listed where listings are allowed, and
    /// answered with 403 where they are not. A directory's body is HTML.
    pub fn open<'a>(&mut self, is_dir: bool, list_dir: bool) -> (r: Step<'a>)
        ensures
            final(self).path == old(self).path,
            final(self).index_fallback == old(self).index_fallback,
            !is_dir ==> final(self).mime == old(self).mime && (r matches Step::ReadFile(p) && p@
                == old(self).path@),
            is_dir ==> (final(self).mime matches Some(m) && m@ == "text/html"@),
            is_dir && list_dir ==> (r matches Step::ListDir(p) && p@ == old(self).path@),
            is_dir && !list_dir ==> (r matches Step::Respond(resp) && is_error_response(
                resp,
                403,
                "Forbidden"@,
                traversal_comment(),
            )),
    {
        if !is_dir {
            return Step::ReadFile(self.path.clone());
        }
        self.mime = Some(text_html());
        if list_dir {
            Step::ListDir(self.path.clone())
        } else {
            Step::Respond(traversal_denied())
        }
    }

    /// Goes on with the outcome of reading or listing. A failure falls back
    /// once to listing `root` where the request asked for the default
    /// document and listings are allowed; otherwise the outcome becomes the
    /// response: the content with status 200, or the failure's error page.
    pub fn complete<'a>(&mut self, contents: Result<Vec<u8>, IoError>, root: &[u8]) -> (r: Step<'a>)
        ensures
            final(self).path == old(self).path,
            final(self).mime == old(self).mime,
            contents is Err && old(self).index_fallback ==> !final(self).index_fallback && (
            r matches Step::ListDir(p) && p@ == root@),
            !(contents is Err && old(self).index_fallback) ==> final(self).index_fallback
                == old(self).index_fallback && (r matches Step::Respond(resp) && (match contents {
                Ok(b) => resp.status.code == 200 && resp.status.msg@ == "OK"@
                    && resp.status.comment is None && resp.mime == old(self).mime && resp.body@
                    == b@,
                Err(e) => resp.status.code == crate::status::code_of_kind(e.kind)
                    && resp.status.msg@ == crate::status::reason_phrase(resp.status.code)
                    && comment_view(resp.status.comment) == comment_view(e.message) && (
                resp.mime matches Some(m) && m@ == "text/html"@) && resp.body@ == page_bytes(
                    resp.status,
                ),
            })),
    {
        if contents.is_err() && self.index_fallback {
            self.index_fallback = false;
            let mut p: Vec<u8> = Vec::new();
            crate::text::append_bytes(&mut p, root);
            assert(p@ =~= root@);
            return Step::ListDir(p);
        }
        let status = HTTPStatus::from_io_result(&contents);
        Step::Respond(HTTPResponse::new(status, self.mime, contents))
    }
}


proof fn lemma_escape_plain(s: Seq<char>)
    requires
        forall|i: int|
            0 <= i < s.len() ==> s[i] != '&' && s[i] != '<' && s[i] != '>' && s[i] != '"' && s[i]
                != '\'',
    ensures
        escape_text(s) == s,
    decreases s.len(),
{
    if s.len() > 0 {
        lemma_escape_plain(s.drop_last());
        assert(escape_char(s.last()) == seq![s.last()]);
        assert(s.drop_last().push(s.last()) =~= s);
    }
}

proof fn lemma_page_shows(code: usize, msg: Seq<char>, comment: Seq<char>)
    requires
        escape_text(comment) == comment,
    ensures
        exists|pre: Seq<char>, post: Seq<char>|
            status_page(code, msg, Some(comment)) == pre + comment + post,
{
    let d = crate::text::decimal_chars(code as nat);
    let pre = "<!DOCTYPE html><html lang=\"en\"><head><meta charset=\"utf-8\"><title>"@ + d
        + "</title></head><body><h1>"@ + d + "</h1><p>"@ + msg + "</p><p>"@;
    let post = "</p></body></html>\n"@;
    assert(status_page(code, msg, Some(comment)) =~= pre + comment + post);
}

/// The page that answers a method other than GET and HEAD shows the text
/// "Server only supports GET and HEAD requests" as it is written.
pub proof fn lemma_unsupported_page_shows_text(msg: Seq<char>)
    ensures
        exists|pre: Seq<char>, post: Seq<char>|
            status_page(501, msg, Some(unsupported_comment())) == pre + unsupported_comment()
                + post,
{
    reveal_strlit("Server only supports GET and HEAD requests");
    lemma_escape_plain(unsupported_comment());
    lemma_page_shows(501, msg, unsupported_comment());
}

/// The page that answers a path leaving the served directory shows the text
/// "Directory traversal is not allowed!" as it is written.
pub proof fn lemma_traversal_page_shows_text(msg: Seq<char>)
    ensures
        exists|pre: Seq<char>, post: Seq<char>|
            status_page(403, msg, Some(traversal_comment())) == pre + traversal_comment() + post,
{
    reveal_strlit("Directory traversal is not allowed!");
    lemma_escape_plain(traversal_comment());
    lemma_page_shows(403, msg, traversal_comment());
}

} // verus!
