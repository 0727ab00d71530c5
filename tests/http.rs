use servum::html::html_doc;
use servum::request::{HTTPRequest, HTTPRequestError};
use servum::response::HTTPResponse;
use servum::status::{HTTPStatus, IoError, IoErrorKind};

#[test]
fn htmldoc() {
    let doc = html_doc("Server Error", "500", "Internal server error");

    assert!(doc.starts_with("<!DOCTYPE html>"));
    assert!(doc.ends_with("</html>\n"));
    assert!(doc.find("<title>Server Error</title>").is_some());
    assert!(doc.find("<h1>500</h1>").is_some());
    assert!(doc.find("<p>Internal server error</p>").is_some());
}

#[test]
fn htmldoc_exact() {
    assert_eq!(
        html_doc("T", "L", "C"),
        "<!DOCTYPE html><html lang=\"en\"><head><meta charset=\"utf-8\"><title>T</title></head><body><h1>L</h1><p>C</p></body></html>\n"
    );
}

#[test]
fn from_buf() {
    let req = HTTPRequest::new(b"HEAD /index.html HTTP/1.1").unwrap();

    assert_eq!(req.method, "HEAD");
    assert_eq!(req.filepath, "/index.html");
}

#[test]
fn no_method() {
    let req = HTTPRequest::new(b"");

    assert!(req.is_err());
    assert!(matches!(req.unwrap_err(), HTTPRequestError::NoMethod));
}

#[test]
fn no_path() {
    let req = HTTPRequest::new(b"HEAD HTTP/1.1");

    assert!(req.is_err());
    assert!(matches!(req.unwrap_err(), HTTPRequestError::NoPath));
}

#[test]
fn utf8_error() {
    // Invalid sparkling heart, should be [240, 159, 146, 150]
    let buf = &[0, 159, 146, 150];
    let req = HTTPRequest::new(buf);

    assert!(req.is_err());
    assert!(matches!(req.unwrap_err(), HTTPRequestError::Utf8Error));
}

#[test]
fn request_words_and_padding() {
    let mut buf = [0u8; 64];
    let line = b"GET  /a%20b.html\tHTTP/1.1\r\nHost: x\r\n\r\n";
    buf[..line.len()].copy_from_slice(line);
    let req = HTTPRequest::new(&buf).unwrap();
    assert_eq!(req.method, "GET");
    assert_eq!(req.filepath, "/a%20b.html");
    assert!(matches!(HTTPRequest::new(b"GET /"), Err(HTTPRequestError::NoPath)));
    assert!(matches!(HTTPRequest::new(b" \r\n\t "), Err(HTTPRequestError::NoMethod)));
    let req = HTTPRequest::new("GET /caf\u{e9} HTTP/1.1".as_bytes()).unwrap();
    assert_eq!(req.filepath, "/caf\u{e9}");
}

#[test]
fn request_error_messages() {
    assert_eq!(
        HTTPRequestError::NoPath.to_string(),
        "Request does not have an associated request path"
    );
}

#[test]
fn httpresponse() {
    let res = HTTPResponse::new(
        HTTPStatus::from(404),
        None,
        Err(IoError::new(IoErrorKind::NotFound, "")),
    );
    let body_str = std::str::from_utf8(&res.body).unwrap();

    // Status
    assert_eq!(res.status.to_string(), "HTTP/1.1 404 Not Found");
    assert_eq!(res.status.comment, None);

    assert_eq!(res.mime.unwrap(), "text/html");

    assert!(body_str.find("<h1>404</h1>").is_some());
    assert!(body_str.find("<p>Not Found</p>").is_some());
}

#[test]
fn response_from_io_err() {
    let err = IoError::new(IoErrorKind::Other, "Some unknown error occurred");
    let res = HTTPResponse::from_io_error(err);
    let body_str = std::str::from_utf8(&res.body).unwrap();

    assert_eq!(
        res.status.to_string(),
        "HTTP/1.1 500 Internal Server Error"
    );
    assert_eq!(res.status.comment.unwrap(), "Some unknown error occurred");

    assert_eq!(res.mime.unwrap(), "text/html");

    assert!(body_str.find("<h1>500</h1>").is_some());
    assert!(body_str.find("<p>Internal Server Error</p>").is_some());
    assert!(body_str
        .find("<p>Some unknown error occurred</p>")
        .is_some());
}

#[test]
fn from_httpstatus() {
    let res = HTTPResponse::from_status(HTTPStatus::from(501));
    let body_str = std::str::from_utf8(&res.body).unwrap();

    assert_eq!(res.status.to_string(), "HTTP/1.1 501 Not Implemented");
    assert_eq!(res.status.comment, None);

    assert_eq!(res.mime.unwrap(), "text/html");

    assert!(body_str.find("<h1>501</h1>").is_some());
    assert!(body_str.find("<p>Not Implemented</p>").is_some());
}

#[test]
fn response_keeps_content_and_mime() {
    let res = HTTPResponse::new(HTTPStatus::from(200), Some("text/plain"), Ok(b"Hello World".to_vec()));
    assert_eq!(res.body, b"Hello World");
    assert_eq!(res.status.to_string(), "HTTP/1.1 200 OK");
    assert_eq!(res.mime.unwrap(), "text/plain");
}

#[test]
fn response_header_and_bytes() {
    let res = HTTPResponse::new(HTTPStatus::from(200), Some("text/plain"), Ok(b"Hello World".to_vec()));
    assert_eq!(
        res.header(),
        b"HTTP/1.1 200 OK\r\nContent-Length: 11\r\nContent-Type: text/plain\r\nConnection: close\r\n\r\n".to_vec()
    );
    let res = HTTPResponse::new(HTTPStatus::from(200), None, Ok(Vec::new()));
    assert_eq!(
        res.header(),
        b"HTTP/1.1 200 OK\r\nContent-Length: 0\r\nConnection: close\r\n\r\n".to_vec()
    );
    let res = HTTPResponse::from_status(HTTPStatus::from(404));
    let all = res.into_bytes();
    let text = std::str::from_utf8(&all).unwrap();
    assert!(text.starts_with("HTTP/1.1 404 Not Found\r\nContent-Length: "));
    assert!(text.ends_with("<h1>404</h1><p>Not Found</p></body></html>\n"));
}

#[test]
fn httpstatus() {
    let status = HTTPStatus::new(
        403,
        "Permission denied",
        Some(String::from("Directory traversal is not allowed!")),
    );

    assert_eq!(status.code, 403);
    assert_eq!(status.msg, "Permission denied");
    assert_eq!(
        status.comment.unwrap(),
        "Directory traversal is not allowed!"
    );
}

#[test]
fn from_io_ok() {
    let res: Result<&str, IoError> = Ok("");
    let status = HTTPStatus::from_io_result(&res);

    assert_eq!(status.code, 200);
    assert_eq!(status.msg, "OK");
    assert!(status.comment.is_none());
}

#[test]
fn status_from_io_err() {
    let res = IoError::new(IoErrorKind::NotFound, "File not found");
    let status = HTTPStatus::from_io_error(&res);

    assert_eq!(status.code, 404);
    assert_eq!(status.msg, "Not Found");
    assert_eq!(status.comment.unwrap(), "File not found");
}

#[test]
fn from_usize() {
    let status = HTTPStatus::from(200);

    assert_eq!(status.code, 200);
    assert_eq!(status.msg, "OK");
    assert_eq!(status.comment, None);
}

#[test]
fn display() {
    let res: Result<&str, IoError> = Ok("");
    let status = HTTPStatus::from_io_result(&res);

    assert_eq!(status.to_string(), "HTTP/1.1 200 OK");
}

#[test]
fn status_codes_and_pages() {
    assert_eq!(HTTPStatus::from(403).msg, "Forbidden");
    assert_eq!(HTTPStatus::from(501).msg, "Not Implemented");
    assert_eq!(HTTPStatus::from(418).msg, "Internal Server Error");
    assert_eq!(HTTPStatus::from(418).code, 500);
    assert_eq!(HTTPStatus::from(302).to_string(), "HTTP/1.1 500 Internal Server Error");
    let denied = IoError::new(IoErrorKind::PermissionDenied, "Cannot read file!");
    let status = HTTPStatus::from_io_error(&denied);
    assert_eq!(status.to_string(), "HTTP/1.1 403 Forbidden");
    assert!(status
        .to_html()
        .contains("<h1>403</h1><p>Forbidden</p><p>Cannot read file!</p>"));
    let other = IoError { kind: IoErrorKind::Other, message: None };
    assert_eq!(HTTPStatus::from_io_error(&other).code, 500);
    assert_eq!(
        HTTPStatus::from(404).to_html(),
        "<!DOCTYPE html><html lang=\"en\"><head><meta charset=\"utf-8\"><title>404</title></head><body><h1>404</h1><p>Not Found</p></body></html>\n"
    );
}

#[test]
fn head_answers_with_header_only() {
    let res = HTTPResponse::new(HTTPStatus::from(200), Some("text/plain"), Ok(b"abc".to_vec()));
    let header = res.header();
    assert_eq!(res.into_bytes_for("HEAD"), header);
    let res = HTTPResponse::new(HTTPStatus::from(200), Some("text/plain"), Ok(b"abc".to_vec()));
    let mut all = header.clone();
    all.extend_from_slice(b"abc");
    assert_eq!(res.into_bytes_for("GET"), all);
}

#[test]
fn comments_are_escaped_on_error_pages() {
    let err = IoError::new(IoErrorKind::NotFound, "<script>alert('x') & \"y\"</script>");
    let page = HTTPStatus::from_io_error(&err).to_html();
    assert!(page.contains(
        "<p>&lt;script&gt;alert(&#39;x&#39;) &amp; &quot;y&quot;&lt;/script&gt;</p>"
    ));
    assert!(!page.contains("<script>"));
    assert_eq!(servum::html::escape_html("caf\u{e9} ok"), "caf\u{e9} ok");
}

#[test]
fn request_line_needs_exactly_three_words() {
    assert!(matches!(
        HTTPRequest::new(b"GET / HTTP/1.1 extra"),
        Err(HTTPRequestError::NoPath)
    ));
    assert!(matches!(
        HTTPRequest::new(b"GET\n/ HTTP/1.1"),
        Err(HTTPRequestError::NoPath)
    ));
    assert!(matches!(HTTPRequest::new(b"\nGET / HTTP/1.1"), Err(HTTPRequestError::NoMethod)));
    let req = HTTPRequest::new(b"GET /a HTTP/1.1\r\nHost: example\r\nAccept: */*\r\n\r\n").unwrap();
    assert_eq!(req.method, "GET");
    assert_eq!(req.filepath, "/a");
}
