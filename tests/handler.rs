use servum::config::Config;
use servum::handler::{route, Step};
use servum::listing::{list_dir, render_entry, sort_texts, DirEntry};
use servum::mime::guess_mime_type;
use servum::request::HTTPRequest;
use servum::response::HTTPResponse;
use servum::status::{IoError, IoErrorKind};

const INDEX: &str = "<!DOCTYPE html><html><body>Welcome</body></html>\n";

struct FakeFs {
    files: Vec<(&'static str, &'static str)>,
    dirs: Vec<&'static str>,
}

fn example_fs() -> FakeFs {
    FakeFs {
        files: vec![
            ("/srv/example/index.html", INDEX),
            ("/srv/example/style.css", "body {}"),
            ("/srv/example/pages/about.html", "<p>about</p>"),
        ],
        dirs: vec!["/srv/example", "/srv/example/pages", "/srv/example/pages/drafts"],
    }
}

fn parent_and_name(path: &str) -> (&str, &str) {
    let cut = path.rfind('/').unwrap();
    (&path[..cut], &path[cut + 1..])
}

fn listing(fs: &FakeFs, dir: &[u8]) -> Result<Vec<u8>, IoError> {
    let dir = std::str::from_utf8(dir).unwrap();
    if !fs.dirs.contains(&dir) {
        return Err(IoError { kind: IoErrorKind::NotFound, message: None });
    }
    let mut entries = Vec::new();
    for (f, _) in &fs.files {
        let (parent, name) = parent_and_name(f);
        if parent == dir {
            entries.push(DirEntry { name: name.to_string(), is_dir: false });
        }
    }
    for d in &fs.dirs {
        if d.contains('/') && d.len() > 1 {
            let (parent, name) = parent_and_name(d);
            if parent == dir {
                entries.push(DirEntry { name: name.to_string(), is_dir: true });
            }
        }
    }
    Ok(list_dir(dir, &entries))
}

fn read(fs: &FakeFs, path: &[u8]) -> Result<Vec<u8>, IoError> {
    let path = std::str::from_utf8(path).unwrap();
    match fs.files.iter().find(|(f, _)| *f == path) {
        Some((_, content)) => Ok(content.as_bytes().to_vec()),
        None => Err(IoError { kind: IoErrorKind::NotFound, message: None }),
    }
}

fn serve(fs: &FakeFs, buffer: &[u8], config: &Config) -> HTTPResponse<'static> {
    let req = HTTPRequest::new(buffer).unwrap();
    let mut lookup = match route(&req, config) {
        Ok(l) => l,
        Err(resp) => return resp,
    };
    let is_dir = fs.dirs.iter().any(|d| d.as_bytes() == lookup.path.as_slice());
    let mut step = lookup.open(is_dir, config.list_dir);
    loop {
        step = match step {
            Step::Respond(resp) => return resp,
            Step::ReadFile(p) => lookup.complete(read(fs, &p), &config.base_dir),
            Step::ListDir(p) => lookup.complete(listing(fs, &p), &config.base_dir),
        };
    }
}

fn example_config() -> Config {
    Config::with_base_dir(b"/srv/example".to_vec())
}

fn body(res: &HTTPResponse) -> String {
    String::from_utf8(res.body.clone()).unwrap()
}

#[test]
fn listdir_success() {
    let entries = vec![
        DirEntry { name: "index.html".to_string(), is_dir: false },
        DirEntry { name: "pages".to_string(), is_dir: true },
    ];
    let dir_listing = list_dir("example/", &entries);
    let dir_str = std::str::from_utf8(&dir_listing).unwrap();

    assert!(dir_str.starts_with("<!DOCTYPE html>"));
    assert!(dir_str.find("<h1>Listing for example/</h1>").is_some());
    assert!(dir_str.find("<ul><li>").is_some());
    assert!(dir_str
        .find("<a href=\"./index.html\">index.html</a>")
        .is_some());
    assert!(dir_str.ends_with("</html>\n"));
}

#[test]
fn request_ok() {
    let res = serve(&example_fs(), b"GET /index.html HTTP/1.1", &example_config());

    assert_eq!(res.status.to_string(), "HTTP/1.1 200 OK");
}

#[test]
fn request_invalid_method() {
    let res = serve(&example_fs(), b"DELETE /user/post HTTP/1.1", &example_config());

    assert_eq!(res.status.to_string(), "HTTP/1.1 501 Not Implemented");
    assert_eq!(res.mime.unwrap(), "text/html");
    assert!(res.body.len() > 0);
}

#[test]
fn request_implied_index() {
    let res = serve(&example_fs(), b"HEAD / HTTP/1.1", &example_config());
    let body = body(&res);

    assert_eq!(res.status.to_string(), "HTTP/1.1 200 OK");
    assert!(body.starts_with("<!DOCTYPE html>"));
    assert!(body.ends_with("</html>\n"));
}

#[test]
fn file_not_found() {
    let res = serve(&example_fs(), b"GET /i-dont-exist HTTP/1.1", &example_config());
    let body = body(&res);

    assert_eq!(res.status.to_string(), "HTTP/1.1 404 Not Found");
    assert!(body.find("<h1>404</h1>").is_some());
}

#[test]
fn respect_no_listdir() {
    let mut conf = example_config();
    conf.list_dir = false;

    let res = serve(&example_fs(), b"GET /pages HTTP/1.1", &conf);
    let body = body(&res);

    assert_eq!(res.status.to_string(), "HTTP/1.1 403 Forbidden");
    assert!(body.find("<h1>403</h1>").is_some());
}

#[test]
fn dir_traversal_forbidden() {
    let res = serve(&example_fs(), b"GET /../src/lib.rs HTTP/1.1", &example_config());
    let body = body(&res);

    assert_eq!(res.status.to_string(), "HTTP/1.1 403 Forbidden");
    assert!(body.find("<h1>403</h1>").is_some());
    assert!(body
        .find("<p>Directory traversal is not allowed!</p>")
        .is_some());
}

#[test]
fn listdir_when_no_index_html() {
    let conf = Config::with_base_dir(b"/srv/example/pages".to_vec());

    let res = serve(&example_fs(), b"GET / HTTP/1.1", &conf);
    let body = body(&res);

    assert_eq!(res.status.to_string(), "HTTP/1.1 200 OK");
    assert!(body.find("Listing for").is_some());
    assert!(body.find("<h1>Listing for").is_some());
}

#[test]
fn every_other_method_is_not_implemented() {
    for method in ["POST", "PUT", "DELETE", "get", "OPTIONS"] {
        let line = format!("{} /index.html HTTP/1.1", method);
        let res = serve(&example_fs(), line.as_bytes(), &example_config());
        assert_eq!(res.status.code, 501);
        assert_eq!(res.mime.unwrap(), "text/html");
        assert!(body(&res).contains("Server only supports GET and HEAD requests"));
    }
}

#[test]
fn etc_passwd_traversal_is_forbidden() {
    let res = serve(&example_fs(), b"GET /../etc/passwd HTTP/1.1", &example_config());
    assert_eq!(res.status.code, 403);
    assert_eq!(res.status.comment.as_deref(), Some("Directory traversal is not allowed!"));
    let res = serve(&example_fs(), b"GET /%2e%2e/%2e%2e/etc/passwd HTTP/1.1", &example_config());
    assert_eq!(res.status.code, 403);
}

#[test]
fn root_serves_index_with_its_type() {
    let res = serve(&example_fs(), b"GET / HTTP/1.1", &example_config());
    assert_eq!(res.status.code, 200);
    assert_eq!(res.body, INDEX.as_bytes());
    assert_eq!(res.mime, Some("text/html"));
    let res = serve(&example_fs(), b"GET /style.css HTTP/1.1", &example_config());
    assert_eq!(res.mime, Some("text/css"));
}

#[test]
fn directory_listing_lists_children_after_parent_link() {
    let res = serve(&example_fs(), b"GET /pages/ HTTP/1.1", &example_config());
    assert_eq!(res.status.code, 200);
    assert_eq!(res.mime, Some("text/html"));
    let text = body(&res);
    assert!(text.starts_with("<!DOCTYPE html>"));
    let parent = text.find("&uarr; Parent Directory").unwrap();
    let about = text.find("<a href=\"./about.html\">about.html</a>").unwrap();
    let drafts = text.find("<a href=\"./drafts/\">drafts/</a>").unwrap();
    assert!(parent < about && about < drafts);
    assert!(text.contains("<h1>Listing for /srv/example/pages</h1>"));
}

#[test]
fn directory_without_listing_is_forbidden() {
    let mut conf = example_config();
    conf.list_dir = false;
    let res = serve(&example_fs(), b"GET /pages/drafts HTTP/1.1", &conf);
    assert_eq!(res.status.code, 403);
}

#[test]
fn missing_index_falls_back_to_root_listing() {
    let conf = Config::with_base_dir(b"/srv/example/pages".to_vec());
    let res = serve(&example_fs(), b"GET /index.html HTTP/1.1", &conf);
    assert_eq!(res.status.code, 200);
    assert!(body(&res).contains("<h1>Listing for /srv/example/pages</h1>"));
    let mut conf = Config::with_base_dir(b"/srv/example/pages".to_vec());
    conf.list_dir = false;
    let res = serve(&example_fs(), b"GET / HTTP/1.1", &conf);
    assert_eq!(res.status.code, 404);
}

#[test]
fn entries_render_and_sort_by_bytes() {
    assert_eq!(render_entry("docs", true), "<a href=\"./docs/\">docs/</a>");
    assert_eq!(render_entry("a.txt", false), "<a href=\"./a.txt\">a.txt</a>");
    let sorted = sort_texts(vec!["b".to_string(), "B".to_string(), "ab".to_string(), "a".to_string()]);
    assert_eq!(sorted, vec!["B", "a", "ab", "b"]);
}

#[test]
fn mime_types_from_extensions() {
    assert_eq!(guess_mime_type(b"/path/to/script.js"), Some("text/javascript"));
    assert_eq!(guess_mime_type(b"archive.tar.gz"), Some("application/gzip"));
    assert_eq!(guess_mime_type(b"/x/y.rs/"), Some("text/x-rust"));
    assert_eq!(guess_mime_type(b"7z.7z"), Some("application/x-7z-compressed"));
    assert_eq!(guess_mime_type(b".bashrc"), None);
    assert_eq!(guess_mime_type(b"Makefile"), None);
    assert_eq!(guess_mime_type(b"file.unknown"), None);
    assert_eq!(guess_mime_type(b"dir/.."), None);
}

#[test]
fn non_text_path_is_not_found() {
    let res = serve(&example_fs(), b"GET /%FF%FE HTTP/1.1", &example_config());
    assert_eq!(res.status.code, 404);
    assert_eq!(res.status.comment, None);
    assert_eq!(res.mime, Some("text/html"));
}
