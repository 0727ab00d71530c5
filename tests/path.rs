use servum::path::{decode_percents, decodes_to_text, is_within, normalize_path, process_path, resolve};

#[test]
fn decode_no_encoding() {
    let path = "./dir/./../dir/subdirfile-name.txt";

    assert_eq!(decode_percents(&path), path.as_bytes().to_vec());
}

#[test]
fn decode_encoding() {
    let path = ".%2Fpath%20with%20spaces%2Fand%20%E2%9C%8B%F0%9F%98%81%2Fmore%20%F0%9F%9A%80%2Feven%20more%20%F0%9F%9A%A9%2Fstop%20%E2%9B%94.txt";

    assert_eq!(
        decode_percents(&path),
        "./path with spaces/and \u{270B}\u{1F601}/more \u{1F680}/even more \u{1F6A9}/stop \u{26D4}.txt"
            .as_bytes()
            .to_vec()
    );
}

#[test]
fn decode_edge_case() {
    let path = ".%2fpath%20with%20spaces%2fedge%20case%.txt";
    //  ^-- lowercase                      ^-- percent at the end
    assert_eq!(
        decode_percents(&path),
        "./path with spaces/edge case%.txt".as_bytes().to_vec()
    );
}

#[test]
fn normalize() {
    let path = "/a/b/c/./../../g";

    assert_eq!(normalize_path(path.as_bytes()), b"/a/g".to_vec());
}

#[test]
fn normalize_2() {
    let path = "mid/content=5/../6";

    assert_eq!(normalize_path(path.as_bytes()), b"mid/6".to_vec());
}

#[test]
fn decode_leaves_text_without_percent() {
    let path = "/plain/path with spaces/file.txt";
    assert_eq!(decode_percents(path), path.as_bytes().to_vec());
}

#[test]
fn decode_emoji_escape() {
    assert_eq!(decode_percents("/%F0%9F%A6%80.html"), "/\u{1F980}.html".as_bytes().to_vec());
}

#[test]
fn decode_short_escape_at_end() {
    assert_eq!(decode_percents("a%4"), b"a%4".to_vec());
    assert_eq!(decode_percents("%zz%41"), b"%zzA".to_vec());
}

#[test]
fn normalize_twice_is_once() {
    for p in ["/a/./b/../../c/", "x//y/../../..", "./subdir/.././index.html", "/", ""] {
        let once = normalize_path(p.as_bytes());
        assert_eq!(normalize_path(&once), once);
    }
}

#[test]
fn normalize_parent_above_root_is_dropped() {
    assert_eq!(normalize_path(b"/../../etc"), b"/etc".to_vec());
    assert_eq!(normalize_path(b"../x"), b"x".to_vec());
    assert_eq!(normalize_path(b"./subdir/.././index.html"), b"index.html".to_vec());
}

#[test]
fn process_joins_and_decodes() {
    assert_eq!(
        process_path(b"./subdir/subsubdir/.././.././%F0%9F%A6%80.html", b"/"),
        "/\u{1F980}.html".as_bytes().to_vec()
    );
    assert_eq!(process_path(b"a/../b", b"/srv/www/"), b"/srv/www/b".to_vec());
    assert_eq!(process_path(b"%2Fetc/passwd", b"/srv/www"), b"/etc/passwd".to_vec());
}

#[test]
fn ancestor_check() {
    assert!(is_within(b"/srv/www", b"/srv/www"));
    assert!(is_within(b"/srv/www", b"/srv/www/a/b"));
    assert!(is_within(b"/srv/www/", b"/srv/www/a"));
    assert!(!is_within(b"/srv/www", b"/srv/wwwx"));
    assert!(!is_within(b"/srv/www", b"/srv"));
    assert!(!is_within(b"/srv/www", b"srv/www/a"));
}

#[test]
fn resolve_traversal_is_denied() {
    assert_eq!(resolve(b"/../etc/passwd", b"/srv/www"), None);
    assert_eq!(resolve(b"/%2e%2e/%2e%2e/etc/passwd", b"/srv/www"), None);
    assert_eq!(resolve(b"/%2Fetc/passwd", b"/srv/www"), None);
}

#[test]
fn resolve_root_is_default_document() {
    assert_eq!(resolve(b"/", b"/srv/www"), Some(b"/srv/www/index.html".to_vec()));
    assert_eq!(resolve(b"/pages/", b"/srv/www"), Some(b"/srv/www/pages".to_vec()));
}

#[test]
fn resolve_output_is_accepted_again() {
    for raw in ["/a/../b.txt", "/x/./y/", "/%41/b", "//c"] {
        let out = resolve(raw.as_bytes(), b"/srv/www").unwrap();
        assert!(is_within(b"/srv/www", &out));
        assert_eq!(normalize_path(&out), out);
    }
}

#[test]
fn paths_that_decode_to_non_text_do_not_resolve() {
    assert_eq!(decode_percents("/%FF"), vec![b'/', 0xFF]);
    assert!(!decodes_to_text(b"/%FF"));
    assert_eq!(resolve(b"/%FF", b"/srv/www"), None);
    assert!(decodes_to_text(b"/%C3%A9"));
    assert_eq!(resolve(b"/%C3%A9", b"/srv/www"), Some("/srv/www/\u{e9}".as_bytes().to_vec()));
}
