use mdview::markdown::{add_lazy_loading, rewrite, to_html};

fn base() -> String {
    String::from(r"C:\work\docs")
}

fn render(source: &str) -> String {
    to_html(source, Some(base().as_str()))
}

#[test]
fn table_renders() {
    let html = to_html("|a|b|\n|-|-|\n|1|2|", None);
    assert!(html.contains("<table>"), "output: {html}");
    assert!(html.contains("<th>a</th>"), "output: {html}");
    assert!(html.contains("<td>1</td>"), "output: {html}");
}

#[test]
fn task_list_renders_checkboxes() {
    let html = to_html("- [x] done\n- [ ] todo", None);
    assert_eq!(html.matches("type=\"checkbox\"").count(), 2, "output: {html}");
    assert_eq!(html.matches("checked").count(), 1, "output: {html}");
    assert!(html.contains("disabled"), "output: {html}");
}

#[test]
fn code_block_plain() {
    let html = to_html("```rust\nfn main() {}\n```", None);
    assert!(html.contains("<pre><code"), "output: {html}");
    assert!(!html.contains("<span class="), "output: {html}");
}

#[test]
fn strikethrough_renders() {
    let html = to_html("~~gone~~", None);
    assert!(html.contains("<del>gone</del>"), "output: {html}");
}

#[test]
fn japanese_passthrough() {
    let html = to_html("# 見出し\n\n日本語の段落です。", None);
    assert!(html.contains("<h1>見出し</h1>"), "output: {html}");
    assert!(html.contains("日本語の段落です。"), "output: {html}");
}

// Raw HTML passes through untouched: input files are trusted local
// documents and script execution is blocked by the WebView CSP instead.
#[test]
fn raw_html_passthrough() {
    let html = to_html("<b>bold</b>", None);
    assert!(html.contains("<b>bold</b>"), "output: {html}");
}

// No headings carry ids, so a table-of-contents link has nowhere to land.
// It stays a fragment rather than being mistaken for a file.
#[test]
fn fragment_links_are_untouched() {
    let html = render("[目次](#section)");
    assert!(html.contains("href=\"#section\""), "output: {html}");
}

#[test]
fn remote_links_are_untouched() {
    let html = render("[GitHub](https://github.com/)");
    assert!(html.contains("href=\"https://github.com/\""), "output: {html}");
}

#[test]
fn local_links_become_a_scheme_the_webview_cannot_follow() {
    let html = render("[別資料](../index.md)");
    assert!(html.contains("href=\"mdview-open:"), "output: {html}");
    // C%3A%5Cwork%5Cindex.md
    assert!(html.contains("C%3A%5Cwork%5Cindex.md"), "output: {html}");
}

#[test]
fn local_images_are_served_over_the_private_protocol() {
    let html = render("![図](./assets/logo.png)");
    assert!(html.contains("http://mdimg.localhost/"), "output: {html}");
    assert!(html.contains("C%3A%5Cwork%5Cdocs%5Cassets%5Clogo.png"), "output: {html}");
}

#[test]
fn images_are_lazily_loaded() {
    let html = render("![図](./a.png)");
    assert!(html.contains("<img loading=\"lazy\" src=\""), "output: {html}");
}

#[test]
fn remote_images_are_untouched() {
    let html = render("![x](https://example.com/a.png)");
    assert!(html.contains("src=\"https://example.com/a.png\""), "output: {html}");
}

// Reading a network path hands the user's credentials to whatever host the
// document named, so it is never rewritten into something the viewer will
// fetch.
//
// Percent-escapes are the form that matters. Written literally, CommonMark
// reads the leading `\\` as an escaped backslash and the destination
// arrives with only one, naming an ordinary local file rather than a host;
// escaping is what carries a genuine network path through the parser.
#[test]
fn network_images_are_not_rewritten() {
    let html = render("![x](%5C%5Cevil%5Cshare%5Ca.png)");
    assert!(!html.contains("mdimg.localhost"), "output: {html}");
}

// Without a base directory there is nothing to resolve against, so the
// viewer's own usage text cannot accidentally produce local destinations.
#[test]
fn without_a_base_nothing_is_rewritten() {
    let html = to_html("[x](./other.md)", None);
    assert!(html.contains("href=\"./other.md\""), "output: {html}");
}

#[test]
fn no_image_is_left_eagerly_loaded() {
    let html = to_html("<img src=\"raw.png\">\n\n![a](a.png) ![b](https://e.example/b.png)", None);
    assert!(!html.contains("<img src=\""), "output: {html}");
    assert_eq!(html.matches("<img loading=\"lazy\" src=\"").count(), 3, "output: {html}");
}

#[test]
fn rewriting_follows_resolution() {
    let link = Some((false, String::from("../index.md")));
    assert_eq!(rewrite(&link, Some(r"C:\work\docs")).unwrap(), "mdview-open:C%3A%5Cwork%5Cindex.md");
    let image = Some((true, String::from("x y.png")));
    assert_eq!(
        rewrite(&image, Some(r"C:\work\docs")).unwrap(),
        "http://mdimg.localhost/C%3A%5Cwork%5Cdocs%5Cx%20y.png"
    );
    assert!(rewrite(&link, None).is_none());
    assert!(rewrite(&None, Some(r"C:\work\docs")).is_none());
    assert!(rewrite(&Some((true, String::from("%5C%5Ch%5Cs%5Ca.png"))), Some(r"C:\w")).is_none());
    assert_eq!(add_lazy_loading("<img src=\"<img src=\""), "<img loading=\"lazy\" src=\"<img loading=\"lazy\" src=\"");
}
