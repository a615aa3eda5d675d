use rust_server::config::{Config, GlobalConfig, ServerConfig, SettingValue};
use rust_server::multipart::{path_of_upload, save_multipart_files, MultipartError};
use rust_server::table::TextMap;

fn form(boundary: &str, parts: &[(&str, &[u8])]) -> Vec<u8> {
    let mut body: Vec<u8> = Vec::new();
    for (head, data) in parts {
        body.extend_from_slice(format!("--{boundary}\r\n{head}\r\n\r\n").as_bytes());
        body.extend_from_slice(data);
        body.extend_from_slice(b"\r\n");
    }
    body.extend_from_slice(format!("--{boundary}--\r\n").as_bytes());
    body
}

const HEAD: &str = "Content-Disposition: form-data; name=\"file\"; filename=";

#[test]
fn files_are_read_back() {
    let binary: Vec<u8> = (0..=255u8).collect();
    let a = format!("{HEAD}\"a.bin\"\r\nContent-Type: x/y");
    let b = format!("{HEAD}\"b c.txt\"");
    let body = form("XyZ", &[(&a, &binary), ("X: no file", b"skip"), (&b, b"\r\n\r\ntext\r\n")]);
    for content_type in
        ["multipart/form-data; boundary=XyZ", "multipart/form-data; charset=x; boundary=\"XyZ\""]
    {
        let files = save_multipart_files(&body, content_type).unwrap();
        assert_eq!(files.len(), 2);
        assert_eq!(files[0].name, "a.bin");
        assert_eq!(files[0].data, binary);
        assert_eq!(files[1].name, "b c.txt");
        assert_eq!(files[1].data, b"\r\n\r\ntext\r\n");
    }
}

#[test]
fn kept_names_have_no_two_dots() {
    for (sent, kept) in [
        ("../../etc/x", "_/_/etc/x"),
        ("...", "_."),
        ("....", "__"),
        ("a.b.c", "a.b.c"),
        (" spaced ", "spaced"),
        ("/etc/x", "etc/x"),
        ("//../x", "_/x"),
        ("né.txt", "né.txt"),
    ] {
        let head = format!("{HEAD}\"{sent}\"");
        let body = form("b", &[(&head, b"d")]);
        let files = save_multipart_files(&body, "multipart/form-data; boundary=b").unwrap();
        assert_eq!(files[0].name, kept);
        assert!(!files[0].name.contains(".."));
        assert_eq!(path_of_upload(&files[0].name), format!("uploads/{kept}"));
    }
}

#[test]
fn files_of_which_no_name_is_left_are_not_kept() {
    for sent in ["/", "///", "\"\"", "\" \"", "\"/\"", "\"//\"; name=\"f\""] {
        let slashes = format!("{HEAD}{sent}");
        let named = format!("{HEAD}\"/kept\"");
        let body = form("b", &[(&slashes, b"lost"), (&named, b"d")]);
        let files = save_multipart_files(&body, "multipart/form-data; boundary=b").unwrap();
        assert_eq!(files.len(), 1, "{sent}");
        assert_eq!(files[0].name, "kept");
    }
}

#[test]
fn heads_are_read_in_any_case() {
    let body = form("b", &[("CONTENT-DISPOSITION: form-data; filename=\"x\"", b"d")]);
    let files = save_multipart_files(&body, "multipart/form-data; boundary=b").unwrap();
    assert_eq!(files[0].name, "x");
}

#[test]
fn upload_without_boundary_is_refused() {
    let e = save_multipart_files(b"--b\r\n--b--", "multipart/form-data").err().unwrap();
    assert_eq!(e, MultipartError::NoBoundary);
    assert_eq!(e.message(), "No boundary in content-type");
}

#[test]
fn upload_without_parts_is_refused() {
    let e = save_multipart_files(b"--b only one", "multipart/form-data; boundary=b").err().unwrap();
    assert_eq!(e, MultipartError::NoParts);
    assert_eq!(e.message(), "No multipart parts found");
    assert!(save_multipart_files(b"--b--b", "multipart/form-data; boundary=b").unwrap().is_empty());
}

#[test]
fn quoted_names_end_at_their_quote() {
    for (line, name) in [
        ("filename=\"a.txt\"; name=\"f\"", "a.txt"),
        ("name=\"f\"; filename=\" b \"  ", "b"),
        ("filename=\"open", "open"),
        ("filename=plain.txt", "plain.txt"),
        ("filename=tail\"", "tail"),
        ("filename=\"a;b\"", "a;b"),
        ("filename=\"\"a.txt\"\"", "a.txt"),
        ("filename=\"a\"b.txt\"", "a\"b.txt"),
        ("filename=\"a.txt\" ; name=\"f\"", "a.txt"),
        ("filename=\"a\"b", "a\"b"),
    ] {
        let head = format!("Content-Disposition: form-data; {line}");
        let body = form("b", &[(&head, b"d")]);
        let files = save_multipart_files(&body, "multipart/form-data; boundary=b").unwrap();
        assert_eq!(files[0].name, name);
    }
    let head = "Content-Disposition: form-data; filename=\"\"; name=\"f\"";
    let body = form("b", &[(head, b"d")]);
    let files = save_multipart_files(&body, "multipart/form-data; boundary=b").unwrap();
    assert!(files.is_empty());
}

#[test]
fn nothing_counts_after_the_closing_marker() {
    let part = |name: &str| format!("--b\r\n{HEAD}\"{name}\"\r\n\r\ndata\r\n");
    let first = format!("{}--b--", part("one"));
    let whole = format!("{first}\r\n{}--b--", part("two"));
    for body in [&first, &whole] {
        let files = save_multipart_files(body.as_bytes(), "x; boundary=b").unwrap();
        assert_eq!(files.len(), 1);
        assert_eq!(files[0].name, "one");
    }
    let closed = format!("--b--\r\n{}--b--", part("late"));
    assert!(save_multipart_files(closed.as_bytes(), "x; boundary=b").unwrap().is_empty());
}

#[test]
fn head_may_begin_with_hyphens() {
    let head = format!("--odd\r\n{HEAD}\"kept\"");
    let body = form("b", &[(&head, b"d")]);
    let files = save_multipart_files(&body, "x; boundary=b").unwrap();
    assert_eq!(files.len(), 1);
    assert_eq!(files[0].name, "kept");
}

fn server(setting: Option<SettingValue>) -> ServerConfig {
    let settings = setting.map(|v| {
        let mut t: TextMap<SettingValue> = TextMap::new();
        t.insert("client_max_body_size".to_string(), v);
        t
    });
    ServerConfig {
        server_name: None,
        server_address: None,
        ports: None,
        settings,
        routes: vec![],
        routes_redirects: vec![],
    }
}

#[test]
fn setting_of_the_server_counts_over_the_global_one() {
    let servers = || {
        vec![
            server(None),
            server(Some(SettingValue::Integer(7))),
            server(Some(SettingValue::Other)),
            server(Some(SettingValue::Integer(-1))),
        ]
    };
    let plain = Config { global: None, servers: servers(), errors: None };
    assert_eq!(plain.body_limit(0), 10 * 1024 * 1024);
    assert_eq!(plain.body_limit(1), 7);
    assert_eq!(plain.body_limit(2), 10 * 1024 * 1024);
    assert_eq!(plain.body_limit(3), usize::MAX);
    assert_eq!(plain.body_limit(4), 10 * 1024 * 1024);
    let global = GlobalConfig { client_max_body_size: Some(99), error_pages: None };
    let limited = Config { global: Some(global), servers: servers(), errors: None };
    assert_eq!(limited.body_limit(0), 99);
    assert_eq!(limited.body_limit(1), 7);
    assert_eq!(limited.body_limit(2), 99);
    assert_eq!(limited.body_limit(9), 99);
    let empty = GlobalConfig { client_max_body_size: None, error_pages: None };
    let unset = Config { global: Some(empty), servers: servers(), errors: None };
    assert_eq!(unset.body_limit(0), 10 * 1024 * 1024);
}
