//! Content-type inference by file extension.

use scout_pathfinder::mime::mime_from_path;

#[test]
fn known_extensions() {
    assert_eq!(mime_from_path("index.html"), "text/html; charset=utf-8");
    assert_eq!(mime_from_path("style.css"), "text/css; charset=utf-8");
    assert_eq!(mime_from_path("app.js"), "application/javascript; charset=utf-8");
    assert_eq!(mime_from_path("module.mjs"), "application/javascript; charset=utf-8");
    assert_eq!(mime_from_path("core.wasm"), "application/wasm");
    assert_eq!(mime_from_path("logo.png"), "image/png");
    assert_eq!(mime_from_path("photo.jpg"), "image/jpeg");
    assert_eq!(mime_from_path("photo.jpeg"), "image/jpeg");
    assert_eq!(mime_from_path("icon.svg"), "image/svg+xml");
    assert_eq!(mime_from_path("favicon.ico"), "image/x-icon");
}

#[test]
fn unknown_extension_is_raw_bytes() {
    assert_eq!(mime_from_path("README"), "application/octet-stream");
    assert_eq!(mime_from_path("archive.tar.gz"), "application/octet-stream");
    assert_eq!(mime_from_path(""), "application/octet-stream");
    assert_eq!(mime_from_path("html"), "application/octet-stream");
}

#[test]
fn suffix_must_be_at_the_end() {
    assert_eq!(mime_from_path("page.html.bak"), "application/octet-stream");
    assert_eq!(mime_from_path(".html"), "text/html; charset=utf-8");
}
