use mdview::links::{percent_encode, resolve};
use mdview::commands::{
    asset_access, asset_path, is_allowed_external, link_target, navigation_allowed, FollowError,
};

#[test]
fn link_targets_decode_to_local_paths() {
    assert_eq!(link_target("C%3A%5Cwork%5Cindex.md").unwrap(), r"C:\work\index.md");
    assert_eq!(link_target("%zz").unwrap_err(), FollowError::MalformedTarget);
    assert_eq!(link_target("%5C%5Cserver%5Cshare%5Cx.md").unwrap_err(), FollowError::NetworkPath);
    assert_eq!(link_target("%5C%5C%3F%5CUnC%5Cs%5Cx").unwrap_err(), FollowError::NetworkPath);
    assert_eq!(link_target("%5C%2Fserver%2Fshare%2Fx.md").unwrap_err(), FollowError::NetworkPath);
    assert_eq!(FollowError::MalformedTarget.message(), "malformed target");
    assert_eq!(FollowError::NetworkPath.message(), "refusing to open a network path");
}

#[test]
fn only_web_and_mail_schemes_go_to_the_system() {
    assert!(is_allowed_external("http://example.com/"));
    assert!(is_allowed_external("https://example.com/"));
    assert!(is_allowed_external("mailto:a@b.example"));
    assert!(!is_allowed_external("file:///C:/x"));
    assert!(!is_allowed_external("HTTPS://example.com/"));
    assert!(!is_allowed_external("javascript:alert(1)"));
}

#[test]
fn navigation_stays_on_the_app_origin() {
    assert!(navigation_allowed("https", Some("tauri.localhost"), false));
    assert!(navigation_allowed("http", Some("tauri.localhost"), false));
    assert!(!navigation_allowed("https", Some("example.com"), false));
    assert!(!navigation_allowed("https", None, false));
    assert!(navigation_allowed("tauri", None, false));
    assert!(navigation_allowed("about", None, false));
    assert!(!navigation_allowed("file", None, false));
    assert!(!navigation_allowed("http", Some("localhost"), false));
    assert!(navigation_allowed("http", Some("localhost"), true));
}

#[test]
fn image_requests_are_refused_by_status() {
    assert_eq!(asset_path("C%3A%5Ca.png").unwrap(), r"C:\a.png");
    assert_eq!(asset_path("%G0").unwrap_err(), 400);
    assert_eq!(asset_path("%5C%5Cserver%5Cshare%5Cx.png").unwrap_err(), 403);
    assert_eq!(asset_path("%2F%5Cserver%5Cshare%5Cx.png").unwrap_err(), 403);
    assert_eq!(asset_path("%5C%5C%3F%5CUNC%5Cs%5Cx.png").unwrap_err(), 403);
    assert_eq!(asset_access(None).unwrap_err(), 404);
    assert_eq!(asset_access(Some(String::from(r"\\?\UNC\srv\share\a.png"))).unwrap_err(), 403);
    assert_eq!(asset_access(Some(String::from(r"\\?\C:\a.png"))).unwrap(), r"\\?\C:\a.png");
}

#[test]
fn a_rewritten_link_opens_the_resolved_file() {
    let path = resolve("../図 1.md", r"C:\work\docs").unwrap();
    assert_eq!(link_target(&percent_encode(&path)).unwrap(), path);
    assert_eq!(asset_path(&percent_encode(&path)).unwrap(), path);
}
