use vstd::prelude::*;
use vstd::string::*;

use crate::path::{is_parent, parent, push_segments, segments, views, DOT};
use crate::text::{bytes_equal, copy_range};

verus! {

/// The last piece of `p`, as `Path::file_name` gives it: none where `p` ends
/// in the root or in `..`.
pub open spec fn file_name(p: Seq<u8>) -> Option<Seq<u8>> {
    let segs = segments(p);
    if segs.len() > 0 && !is_parent(segs.last()) {
        Some(segs.last())
    } else {
        None
    }
}

/// The position of the last `.` in `s`.
pub open spec fn last_dot(s: Seq<u8>) -> Option<int>
    decreases s.len(),
{
    if s.len() == 0 {
        None
    } else if s.last() == DOT {
        Some(s.len() - 1)
    } else {
        last_dot(s.drop_last())
    }
}

/// The extension of `p`, as `Path::extension` gives it: what follows the
/// last `.` of the file name, unless that `.` begins the name.
pub open spec fn extension(p: Seq<u8>) -> Option<Seq<u8>> {
    match file_name(p) {
        Some(f) => match last_dot(f) {
            Some(i) => if i > 0 {
                Some(f.subrange(i + 1, f.len() as int))
            } else {
                None
            },
            None => None,
        },
        None => None,
    }
}

/// The known extensions and their MIME types, in the order they are tried.
pub open spec fn mime_table() -> Seq<(&'static str, &'static str)> {
    seq![
        ("aac", "audio/aac"),
        ("abw", "application/x-abiword"),
        ("arc", "application/x-freearc"),
        ("avi", "video/x-msvideo"),
        ("azw", "application/vnd.amazon.ebook"),
        ("bin", "application/octet-stream"),
        ("bmp", "image/bmp"),
        ("bz", "application/x-bzip"),
        ("bz2", "application/x-bzip2"),
        ("csh", "application/x-csh"),
        ("css", "text/css"),
        ("csv", "text/csv"),
        ("doc", "application/msword"),
        ("docx", "application/vnd.openxmlformats-officedocument.wordprocessingml.document"),
        ("eot", "application/vnd.ms-fontobject"),
        ("epub", "application/epub+zip"),
        ("gz", "application/gzip"),
        ("gif", "image/gif"),
        ("htm", "text/html"),
        ("html", "text/html"),
        ("ico", "image/vnd.microsoft.icon"),
        ("ics", "text/calendar"),
        ("jar", "application/java-archive"),
        ("jpeg", "image/jpeg"),
        ("jpg", "image/jpeg"),
        ("js", "text/javascript"),
        ("json", "application/json"),
        ("jsonld", "application/ld+json"),
        ("mid", "audio/midi"),
        ("midi", "audio/midi"),
        ("mjs", "text/javascript"),
        ("mp3", "audio/mpeg"),
        ("mpeg", "video/mpeg"),
        ("mpkg", "application/vnd.apple.installer+xml"),
        ("odp", "application/vnd.oasis.opendocument.presentation"),
        ("ods", "application/vnd.oasis.opendocument.spreadsheet"),
        ("odt", "application/vnd.oasis.opendocument.text"),
        ("oga", "audio/ogg"),
        ("ogv", "video/ogg"),
        ("ogx", "application/ogg"),
        ("opus", "audio/opus"),
        ("otf", "font/otf"),
        ("png", "image/png"),
        ("pdf", "application/pdf"),
        ("php", "application/x-httpd-php"),
        ("ppt", "application/vnd.ms-powerpoint"),
        ("pptx", "application/vnd.openxmlformats-officedocument.presentationml.presentation"),
        ("rar", "application/vnd.rar"),
        ("rtf", "application/rtf"),
        ("sh", "application/x-sh"),
        ("svg", "image/svg+xml"),
        ("swf", "application/x-shockwave-flash"),
        ("tar", "application/x-tar"),
        ("tif", "image/tiff"),
        ("tiff", "image/tiff"),
        ("ts", "video/mp2t"),
        ("ttf", "font/ttf"),
        ("txt", "text/plain"),
        ("vsd", "application/vnd.visio"),
        ("wav", "audio/wav"),
        ("weba", "audio/webm"),
        ("webm", "video/webm"),
        ("webp", "image/webp"),
        ("woff", "font/woff"),
        ("woff2", "font/woff2"),
        ("xhtml", "application/xhtml+xml"),
        ("xls", "application/vnd.ms-excel"),
        ("xlsx", "application/vnd.openxmlformats-officedocument.spreadsheetml.sheet"),
        ("xml", "application/xml"),
        ("xul", "application/vnd.mozilla.xul+xml"),
        ("zip", "application/zip"),
        ("3gp", "video/3gpp"),
        ("3g2", "video/3gpp2"),
        ("7z", "application/x-7z-compressed"),
        ("rs", "text/x-rust")
    ]
}

/// The MIME type of the first entry of `table` whose extension is `ext`.
pub open spec fn lookup(table: Seq<(&'static str, &'static str)>, ext: Seq<u8>) -> Option<
    &'static str,
>
    decreases table.len(),
{
    if table.len() == 0 {
        None
    } else if table[0].0.spec_bytes() == ext {
        Some(table[0].1)
    } else {
        lookup(table.subrange(1, table.len() as int), ext)
    }
}

/// The MIME type that a path's extension suggests.
pub open spec fn mime_of(p: Seq<u8>) -> Option<&'static str> {
    match extension(p) {
        Some(e) => lookup(mime_table(), e),
        None => None,
    }
}

fn mime_entries() -> (r: Vec<(&'static str, &'static str)>)
    ensures
        r@ == mime_table(),
{
    let mut t: Vec<(&'static str, &'static str)> = Vec::new();
    t.push(("aac", "audio/aac"));
    t.push(("abw", "application/x-abiword"));
    t.push(("arc", "application/x-freearc"));
    t.push(("avi", "video/x-msvideo"));
    t.push(("azw", "application/vnd.amazon.ebook"));
    t.push(("bin", "application/octet-stream"));
    t.push(("bmp", "image/bmp"));
    t.push(("bz", "application/x-bzip"));
    t.push(("bz2", "application/x-bzip2"));
    t.push(("csh", "application/x-csh"));
    t.push(("css", "text/css"));
    t.push(("csv", "text/csv"));
    t.push(("doc", "application/msword"));
    t.push(("docx", "application/vnd.openxmlformats-officedocument.wordprocessingml.document"));
    t.push(("eot", "application/vnd.ms-fontobject"));
    t.push(("epub", "application/epub+zip"));
    t.push(("gz", "application/gzip"));
    t.push(("gif", "image/gif"));
    t.push(("htm", "text/html"));
    t.push(("html", "text/html"));
    t.push(("ico", "image/vnd.microsoft.icon"));
    t.push(("ics", "text/calendar"));
    t.push(("jar", "application/java-archive"));
    t.push(("jpeg", "image/jpeg"));
    t.push(("jpg", "image/jpeg"));
    t.push(("js", "text/javascript"));
    t.push(("json", "application/json"));
    t.push(("jsonld", "application/ld+json"));
    t.push(("mid", "audio/midi"));
    t.push(("midi", "audio/midi"));
    t.push(("mjs", "text/javascript"));
    t.push(("mp3", "audio/mpeg"));
    t.push(("mpeg", "video/mpeg"));
    t.push(("mpkg", "application/vnd.apple.installer+xml"));
    t.push(("odp", "application/vnd.oasis.opendocument.presentation"));
    t.push(("ods", "application/vnd.oasis.opendocument.spreadsheet"));
    t.push(("odt", "application/vnd.oasis.opendocument.text"));
    t.push(("oga", "audio/ogg"));
    t.push(("ogv", "video/ogg"));
    t.push(("ogx", "application/ogg"));
    t.push(("opus", "audio/opus"));
    t.push(("otf", "font/otf"));
    t.push(("png", "image/png"));
    t.push(("pdf", "application/pdf"));
    t.push(("php", "application/x-httpd-php"));
    t.push(("ppt", "application/vnd.ms-powerpoint"));
    t.push(("pptx", "application/vnd.openxmlformats-officedocument.presentationml.presentation"));
    t.push(("rar", "application/vnd.rar"));
    t.push(("rtf", "application/rtf"));
    t.push(("sh", "application/x-sh"));
    t.push(("svg", "image/svg+xml"));
    t.push(("swf", "application/x-shockwave-flash"));
    t.push(("tar", "application/x-tar"));
    t.push(("tif", "image/tiff"));
    t.push(("tiff", "image/tiff"));
    t.push(("ts", "video/mp2t"));
    t.push(("ttf", "font/ttf"));
    t.push(("txt", "text/plain"));
    t.push(("vsd", "application/vnd.visio"));
    t.push(("wav", "audio/wav"));
    t.push(("weba", "audio/webm"));
    t.push(("webm", "video/webm"));
    t.push(("webp", "image/webp"));
    t.push(("woff", "font/woff"));
    t.push(("woff2", "font/woff2"));
    t.push(("xhtml", "application/xhtml+xml"));
    t.push(("xls", "application/vnd.ms-excel"));
    t.push(("xlsx", "application/vnd.openxmlformats-officedocument.spreadsheetml.sheet"));
    t.push(("xml", "application/xml"));
    t.push(("xul", "application/vnd.mozilla.xul+xml"));
    t.push(("zip", "application/zip"));
    t.push(("3gp", "video/3gpp"));
    t.push(("3g2", "video/3gpp2"));
    t.push(("7z", "application/x-7z-compressed"));
    t.push(("rs", "text/x-rust"));
    assert(t@ =~= mime_table());
    t
}

fn last_dot_of(s: &Vec<u8>) -> (r: Option<usize>)
    ensures
        r is None <==> last_dot(s@) is None,
        r matches Some(i) ==> last_dot(s@) == Some(i as int) && i < s@.len(),
{
    let mut k: usize = s.len();
    assert(s@.subrange(0, s@.len() as int) =~= s@);
    while k > 0
        invariant
            k <= s@.len(),
            last_dot(s@) == last_dot(s@.subrange(0, k as int)),
        decreases k,
    {
        let ghost t = s@.subrange(0, k as int);
        assert(t.drop_last() =~= s@.subrange(0, k - 1));
        if s[k - 1] == DOT {
            return Some(k - 1);
        }
        k = k - 1;
    }
    None
}

/// The extension of a path, as `Path::extension` finds it.
pub fn path_extension(path: &[u8]) -> (r: Option<Vec<u8>>)
    ensures
        match extension(path@) {
            Some(e) => r matches Some(v) && v@ == e,
            None => r is None,
        },
{
    let mut segs: Vec<Vec<u8>> = Vec::new();
    push_segments(&mut segs, path);
    assert(views(segs@) =~= segments(path@));
    if segs.len() == 0 {
        return None;
    }
    let name = segs.pop().unwrap();
    assert(name@ == segments(path@).last());
    if parent(&name) {
        return None;
    }
    assert(file_name(path@) == Some(name@));
    let dot = last_dot_of(&name);
    match dot {
        Some(i) => {
            let n = name.len();
            if i > 0 && i < n {
                Some(copy_range(name.as_slice(), i + 1, n))
            } else {
                None
            }
        },
        None => None,
    }
}

/// Guesses the MIME type of a file from the extension of its path; `None`
/// for a path without extension or with one the table does not know.
pub fn guess_mime_type(path: &[u8]) -> (r: Option<&'static str>)
    ensures
        r == mime_of(path@),
{
    let ext = match path_extension(path) {
        Some(e) => e,
        None => return None,
    };
    assert(extension(path@) == Some(ext@));
    let table = mime_entries();
    let mut k: usize = 0;
    assert(table@.subrange(0, table@.len() as int) =~= table@);
    while k < table.len()
        invariant
            k <= table@.len(),
            table@ == mime_table(),
            extension(path@) == Some(ext@),
            lookup(mime_table(), ext@) == lookup(table@.subrange(k as int, table@.len() as int), ext@),
        decreases table@.len() - k,
    {
        let (e, m) = table[k];
        let ghost rest = table@.subrange(k as int, table@.len() as int);
        assert(rest[0] == (e, m));
        assert(rest.subrange(1, rest.len() as int) =~= table@.subrange(k + 1, table@.len() as int));
        let eb = e.as_bytes();
        if bytes_equal(eb, ext.as_slice()) {
            assert(rest[0].0.spec_bytes() == ext@);
            return Some(m);
        }
        k = k + 1;
    }
    None
}

} // verus!
