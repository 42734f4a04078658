use mdview::links::{is_unc, percent_decode, percent_encode, resolve};

fn base() -> String {
    String::from(r"C:\work\docs")
}

#[test]
fn relative_destination_resolves_against_the_document() {
    let got = resolve("./other.md", &base()).unwrap();
    assert_eq!(got, String::from(r"C:\work\docs\other.md"));
}

// Shared assets one level up are a normal layout, so climbing out of the
// document's own directory has to work.
#[test]
fn parent_segments_are_resolved() {
    let got = resolve("../assets/logo.png", &base()).unwrap();
    assert_eq!(got, String::from(r"C:\work\assets\logo.png"));
}

#[test]
fn absolute_destination_is_kept() {
    let got = resolve(r"D:\elsewhere\notes.md", &base()).unwrap();
    assert_eq!(got, String::from(r"D:\elsewhere\notes.md"));
}

#[test]
fn remote_and_fragment_destinations_are_left_alone() {
    for dest in ["https://example.com/a.md", "mailto:a@b.example", "#section"] {
        assert!(resolve(dest, &base()).is_none(), "dest: {dest}");
    }
}

#[test]
fn network_destinations_are_refused() {
    for dest in [
        r"\\server\share\x.png",
        "//server/share/x.png",
        // Percent-escaped, which is how one survives CommonMark's own
        // unescaping. Caught by the refusal applied after decoding rather
        // than by the one on the raw text.
        "%5C%5Cserver%5Cshare%5Cx.png",
    ] {
        assert!(resolve(dest, &base()).is_none(), "dest: {dest}");
    }
}

// The extension is deliberately not consulted: an executable resolves like
// anything else, and is then opened by the viewer rather than by the shell.
#[test]
fn executables_resolve_like_any_other_file() {
    let got = resolve("./setup.exe", &base()).unwrap();
    assert_eq!(got, String::from(r"C:\work\docs\setup.exe"));
}

#[test]
fn percent_escapes_are_decoded() {
    let got = resolve("./my%20file.md", &base()).unwrap();
    assert_eq!(got, String::from(r"C:\work\docs\my file.md"));
}

#[test]
fn unc_is_detected_through_the_verbatim_prefix() {
    assert!(is_unc(r"\\?\UNC\server\share\x.png"));
    assert!(is_unc(r"\\server\share\x.png"));
    assert!(!is_unc(r"\\?\C:\work\docs\x.png"));
    assert!(!is_unc(r"C:\work\docs\x.png"));
}

#[test]
fn percent_round_trip_survives_a_windows_path() {
    let path = r"C:\work\docs\図 1.png";
    assert_eq!(percent_decode(&percent_encode(path)).unwrap(), path);
}

#[test]
fn malformed_percent_input_is_rejected() {
    assert!(percent_decode("%zz").is_none());
    assert!(percent_decode("%4").is_none());
}

#[test]
fn resolution_against_verbatim_and_unusual_bases() {
    assert_eq!(resolve("../x.md", r"\\?\C:\work\docs").unwrap(), r"\\?\C:\work\x.md");
    assert_eq!(resolve("../../../x.md", r"C:\work").unwrap(), r"C:\x.md");
    assert_eq!(resolve("/x.md", r"C:\work\docs").unwrap(), r"C:\x.md");
    assert_eq!(resolve("a/./b//c.md", r"C:\work").unwrap(), r"C:\work\a\b\c.md");
    assert_eq!(resolve("c:/x/../y.md", r"D:\base").unwrap(), r"c:\y.md");
    assert_eq!(resolve("x.md?raw=1#top", r"C:\w").unwrap(), r"C:\w\x.md");
    assert_eq!(resolve("100%.md", r"C:\w").unwrap(), r"C:\w\100%.md");
    assert!(resolve("?q", r"C:\w").is_none());
    assert!(resolve("", r"C:\w").is_none());
    assert!(resolve(r"\\?\UNC\srv\share\a.png", r"C:\w").is_none());
    assert!(resolve("%2F%2Fsrv%2Fshare%2Fa.png", r"C:\w").is_none());
}

#[test]
fn destinations_left_relative_to_a_drive_are_refused() {
    assert!(resolve("a/C:/b.md", r"C:\w").is_none());
    assert!(resolve("a/D:x/b.md", r"C:\w").is_none());
    assert!(resolve("a/D:x/../b.md", r"C:\w").is_none());
    assert!(resolve("C:notes.md", r"D:\w").is_none());
    assert!(resolve("C:x", r"C:\work\docs").is_none());
    assert!(resolve("x.md", "docs").is_none());
    assert_eq!(resolve(r"C:\notes.md", r"D:\w").unwrap(), r"C:\notes.md");
}

#[test]
fn hosts_written_with_mixed_separators_are_refused() {
    let base = r"C:\work\docs";
    for dest in [r"/\server\share\x.png", r"\/server/share/x.png", "%2F%5Cserver%5Cshare%5Cx.png"] {
        assert!(resolve(dest, base).is_none(), "dest: {dest}");
    }
    assert!(is_unc(r"/\server\share\x.png"));
    assert!(is_unc(r"\/server/share/x.png"));
    assert!(!is_unc(r"/server/share/x.png"));
}

#[test]
fn scheme_detection() {
    assert!(resolve("ftp://x/y", r"C:\w").is_none());
    assert!(resolve("a+b.c-d:rest", r"C:\w").is_none());
    assert_eq!(resolve(r"C:\x.md", r"D:\w").unwrap(), r"C:\x.md");
    assert_eq!(resolve("1ab:x", r"C:\w").unwrap(), r"C:\w\1ab:x");
    assert_eq!(resolve("a_b:x", r"C:\w").unwrap(), r"C:\w\a_b:x");
}

#[test]
fn unc_detection_edge_cases() {
    assert!(is_unc(r"\\?\unc\server\share"));
    assert!(is_unc(r"\\?\UNC/server"));
    assert!(is_unc("//server/share"));
    assert!(is_unc(r"\/server"));
    assert!(!is_unc(r"\server"));
    assert!(!is_unc(r"\\?\UNCX\a"));
    assert!(!is_unc(""));
}

#[test]
fn percent_encoding_keeps_only_unreserved_bytes() {
    assert_eq!(percent_encode("aZ09-_.~"), "aZ09-_.~");
    assert_eq!(percent_encode(r"C:\a b"), "C%3A%5Ca%20b");
    assert_eq!(percent_encode("図"), "%E5%9B%B3");
    assert_eq!(percent_decode("%e5%9b%b3").unwrap(), "図");
    assert!(percent_decode("%E5%9B").is_none());
    assert_eq!(percent_decode("a%41").unwrap(), "aA");
    assert!(percent_decode("%41%").is_none());
}

fn normalize_text(path: &str) -> String {
    mdview::winpath::parse(&path.chars().collect()).normalized()
}

#[test]
fn normalising_twice_changes_nothing() {
    for path in [
        r"C:\work\.\docs\..\x.md",
        r"\\?\UNC\srv\\x\y",
        r"\\?\UNC\srv\share\a\..\b",
        r"\\server\share",
        r"\\?\C:\a\.\b",
        r"a/b/../../..",
        r"\\.\COM1",
        r"/x//y/",
    ] {
        let once = normalize_text(path);
        assert_eq!(normalize_text(&once), once, "path: {path}");
    }
    assert_eq!(normalize_text(r"\\?\UNC\srv\\x\y"), r"\\?\UNC\srv\x\y");
    assert_eq!(normalize_text(r"\\server\share"), r"\\server\share\");
    // A name that itself starts with a drive restarts the path, so a second
    // pass can restart it again.
    assert_eq!(normalize_text(r"a\C:D:x"), "C:D:x");
    assert_eq!(normalize_text("C:D:x"), "D:x");
}

#[test]
fn fragments_and_queries_leave_the_resolution_alone() {
    let base = r"C:\work\docs";
    for s in ["x.md", "../a b.md", "", r"\\srv\share", "https:x", "C:x"] {
        for sep in ["#", "?"] {
            for x in ["", "top", "a:b#c?d"] {
                let dest = format!("{s}{sep}{x}");
                assert_eq!(resolve(&dest, base), resolve(s, base), "dest: {dest}");
            }
        }
    }
}

#[test]
fn only_a_backslash_ends_a_verbatim_drive_prefix() {
    // `\\?\C:/x` is one verbatim prefix; `/` does not separate there.
    assert_eq!(resolve("y.md", r"\\?\C:/x").unwrap(), r"\\?\C:/x\y.md");
    assert_eq!(resolve("y.md", r"\\?\C:\x").unwrap(), r"\\?\C:\x\y.md");
    assert_eq!(resolve("y.md", r"\\?\C:").unwrap(), r"\\?\C:\y.md");
    assert_eq!(normalize_text(r"\\?\C:/x"), r"\\?\C:/x");
}

#[test]
fn normalising_again_after_a_drive_restart() {
    for path in [r"a\C:x", r"a\C:x\..\y", r"\\?\p\C:x"] {
        let once = normalize_text(path);
        assert_eq!(normalize_text(&once), once, "path: {path}");
    }
    assert_eq!(normalize_text(r"a\C:.."), "C:..");
    assert_eq!(normalize_text("C:.."), "C:");
}
