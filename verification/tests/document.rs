use mdview::document::{
    decode_document, mime_for, not_found_message, notice, open_document, render_document,
    startup, unreadable_message, usage_markdown, version_markdown, Startup,
};

#[test]
fn missing_file_error() {
    let err = not_found_message("mdview-nonexistent-xyz.md");
    assert!(err.contains("not found"), "error: {err}");
}

// Following a link to an image is ordinary, so "binary" is named as such
// rather than reported as an encoding problem.
#[test]
fn binary_file_is_named_as_binary() {
    let bytes = b"\x89PNG\r\n\x1a\n\x00\x00\x00\x0d".to_vec();
    let err = decode_document(bytes, "mdview-test-binary.png").unwrap_err();
    assert!(err.contains("binary"), "error: {err}");
}

#[test]
fn utf16_is_named_as_utf16() {
    let bytes = b"\xFF\xFE#\x00 \x00o\x00k\x00".to_vec();
    let err = decode_document(bytes, "mdview-test-utf16.md").unwrap_err();
    assert!(err.contains("UTF-16"), "error: {err}");
}

// Text that is neither binary nor UTF-16 but still not UTF-8 (a Shift_JIS
// file, for instance) is reported as an encoding problem.
#[test]
fn other_encodings_are_reported_as_encoding_errors() {
    // "日本語" in Shift_JIS.
    let bytes = b"\x93\xfa\x96\x7b\x8c\xea\n".to_vec();
    let err = decode_document(bytes, "mdview-test-sjis.md").unwrap_err();
    assert!(err.contains("not valid UTF-8"), "error: {err}");
}

#[test]
fn bom_stripped() {
    let text = decode_document(b"\xEF\xBB\xBF# ok\n".to_vec(), "mdview-test-bom.md").unwrap();
    assert_eq!(text, "# ok\n");
}

#[test]
fn valid_utf8_ok() {
    let text = decode_document("# ok\n日本語\n".as_bytes().to_vec(), "mdview-test-valid.md").unwrap();
    assert_eq!(text, "# ok\n日本語\n");
}

#[test]
fn mime_types_cover_the_common_image_formats() {
    assert_eq!(mime_for("a.PNG"), "image/png");
    assert_eq!(mime_for("a.jpeg"), "image/jpeg");
    assert_eq!(mime_for("a.svg"), "image/svg+xml");
    assert_eq!(mime_for("a.zip"), "application/octet-stream");
}

#[test]
fn error_messages_name_the_file() {
    let err = decode_document(vec![0xFE, 0xFF, 0, 0x41], r"C:\d\u.md").unwrap_err();
    assert_eq!(err, "C:\\d\\u.md is UTF-16 encoded.\nmdview reads UTF-8 only.");
    let err = decode_document(vec![0x41, 0], "b.bin").unwrap_err();
    assert_eq!(err, "b.bin is a binary file, so it cannot be shown.");
    assert_eq!(not_found_message("x.md"), "File not found: x.md");
    assert_eq!(unreadable_message("x.md", "denied"), "Cannot read x.md: denied");
}

#[test]
fn nul_after_the_sniffed_prefix_is_not_binary() {
    let mut bytes = vec![b'a'; 8192];
    bytes.push(0);
    assert_eq!(decode_document(bytes, "big.md").unwrap().len(), 8193);
    let mut bytes = vec![b'a'; 8191];
    bytes.push(0);
    assert!(decode_document(bytes, "big.md").unwrap_err().contains("binary"));
}

#[test]
fn only_a_leading_bom_is_stripped() {
    let text = decode_document("a\u{feff}b".as_bytes().to_vec(), "x.md").unwrap();
    assert_eq!(text, "a\u{feff}b");
    let text = decode_document(Vec::new(), "empty.md").unwrap();
    assert_eq!(text, "");
}

#[test]
fn mime_types_for_every_known_extension() {
    assert_eq!(mime_for(r"C:\img\a.png"), "image/png");
    assert_eq!(mime_for(r"C:\img\a.JPG"), "image/jpeg");
    assert_eq!(mime_for(r"C:\img\a.gif"), "image/gif");
    assert_eq!(mime_for(r"C:\img\a.WebP"), "image/webp");
    assert_eq!(mime_for(r"C:\img\a.bmp"), "image/bmp");
    assert_eq!(mime_for(r"C:\img\a.ico"), "image/x-icon");
    assert_eq!(mime_for(r"C:\img\a.avif"), "image/avif");
    assert_eq!(mime_for(r"C:\img\archive.tar.png"), "image/png");
    assert_eq!(mime_for(r"C:\img\.png"), "application/octet-stream");
    assert_eq!(mime_for(r"C:\img\png"), "application/octet-stream");
    assert_eq!(mime_for(r"C:\img\a.png\.."), "application/octet-stream");
    assert_eq!(mime_for(r"C:\"), "application/octet-stream");
    assert_eq!(mime_for(r"C:\img.d\a"), "application/octet-stream");
}

#[test]
fn startup_arguments() {
    assert!(matches!(startup(None), Startup::Usage));
    assert!(matches!(startup(Some("--help")), Startup::Usage));
    assert!(matches!(startup(Some("-h")), Startup::Usage));
    assert!(matches!(startup(Some("/?")), Startup::Usage));
    assert!(matches!(startup(Some("--version")), Startup::Version));
    assert!(matches!(startup(Some("-V")), Startup::Version));
    match startup(Some("README.md")) {
        Startup::Open(p) => assert_eq!(p, "README.md"),
        _ => panic!("README.md should be opened"),
    }
}

#[test]
fn notices_are_documents_without_a_directory() {
    let d = notice("[x](./other.md)");
    assert_eq!(d.file_name, "mdview");
    assert!(d.html.contains("href=\"./other.md\""), "{}", d.html);
    let v = version_markdown("1.2.3");
    assert_eq!(v, "# mdview 1.2.3\n");
    assert!(usage_markdown().starts_with("# mdview\n"));
}

#[test]
fn opened_documents_resolve_against_their_directory() {
    let d = open_document("[x](b.md)", Some(r"\\?\C:\work\docs\a.md"), "a.md");
    assert_eq!(d.file_name, "a.md");
    assert!(d.html.contains("mdview-open:%5C%5C%3F%5CC%3A%5Cwork%5Cdocs%5Cb.md"), "{}", d.html);
    let d = open_document("[x](b.md)", None, r"docs\a.md");
    assert_eq!(d.file_name, "a.md");
    assert!(d.html.contains("href=\"b.md\""), "{}", d.html);
    let d = open_document("text", None, r"C:\");
    assert_eq!(d.file_name, r"C:\");
    let html = render_document("![i](x.png)", r"C:\work\docs\a.md");
    assert!(html.contains("http://mdimg.localhost/C%3A%5Cwork%5Cdocs%5Cx.png"), "{html}");
}
