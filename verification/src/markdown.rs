//! Markdown to HTML: the document is parsed and rendered by `pulldown-cmark`;
//! this module decides where each link and image points and adds lazy
//! loading to images.

use vstd::prelude::*;
use vstd::string::StringExecFns;
use pulldown_cmark::{html, Event, Options, Parser, Tag};
use crate::links::{resolve, spec_is_unc, spec_resolve};
use crate::percent::{percent_encode, spec_percent_encode};
use crate::text::{chars_of, push_char, starts_with};

verus! {

// For each event that `pulldown-cmark` produces for `source` with the given
// extensions: `Some((is_image, destination))` for the start of a link or of
// an image, `None` for every other event.
pub uninterp spec fn markdown_destinations(
    source: Seq<char>,
    tables: bool,
    strikethrough: bool,
    tasklists: bool,
) -> Seq<Option<(bool, Seq<char>)>>;

// The HTML that `pulldown-cmark` writes for `source` with the given
// extensions, where the destination of the `i`-th event is replaced by
// `replacements[i]` when that is `Some`.
pub uninterp spec fn markdown_html(
    source: Seq<char>,
    tables: bool,
    strikethrough: bool,
    tasklists: bool,
    replacements: Seq<Option<Seq<char>>>,
) -> Seq<char>;

/// The link and image destinations of a Markdown document, event by event
/// (`pulldown_cmark::Parser::new_ext`).
///
/// Trusted: the parser is a pure function of the text and the options; the
/// contract only names its result, one entry per event, with the
/// destination of each link start and image start.
#[verifier::external_body]
fn parse_destinations(source: &str, tables: bool, strikethrough: bool, tasklists: bool) -> (r: Vec<
    Option<(bool, String)>,
>)
    ensures
        r.deep_view() == markdown_destinations(source@, tables, strikethrough, tasklists),
{
    let mut opts = Options::empty();
    opts.set(Options::ENABLE_TABLES, tables);
    opts.set(Options::ENABLE_STRIKETHROUGH, strikethrough);
    opts.set(Options::ENABLE_TASKLISTS, tasklists);
    Parser::new_ext(source, opts).map(|event| match event {
        Event::Start(Tag::Link { dest_url, .. }) => Some((false, dest_url.to_string())),
        Event::Start(Tag::Image { dest_url, .. }) => Some((true, dest_url.to_string())),
        _ => None,
    }).collect()
}

/// Renders a Markdown document to HTML (`pulldown_cmark::Parser::new_ext`
/// and `pulldown_cmark::html::push_html`), with link and image destinations
/// replaced event by event.
///
/// Trusted: parsing and rendering are a pure function of the text, the
/// options and the replacements, one per event; the contract only names the
/// result.
#[verifier::external_body]
fn render_html(
    source: &str,
    tables: bool,
    strikethrough: bool,
    tasklists: bool,
    replacements: Vec<Option<String>>,
) -> (html: String)
    requires
        replacements@.len() == markdown_destinations(source@, tables, strikethrough, tasklists).len(),
    ensures
        html@ == markdown_html(source@, tables, strikethrough, tasklists, replacements.deep_view()),
{
    let mut opts = Options::empty();
    opts.set(Options::ENABLE_TABLES, tables);
    opts.set(Options::ENABLE_STRIKETHROUGH, strikethrough);
    opts.set(Options::ENABLE_TASKLISTS, tasklists);
    let events = Parser::new_ext(source, opts).zip(replacements).map(|pair| match pair {
        (Event::Start(Tag::Link { link_type, title, id, .. }), Some(d)) => Event::Start(Tag::Link { link_type, dest_url: d.into(), title, id }),
        (Event::Start(Tag::Image { link_type, title, id, .. }), Some(d)) => Event::Start(Tag::Image { link_type, dest_url: d.into(), title, id }),
        (event, _) => event,
    });
    let mut out = String::new();
    html::push_html(&mut out, events);
    out
}

/// The scheme a local link is rewritten to: the WebView cannot follow it on
/// its own, so the click handler hands it to the viewer.
pub open spec fn open_scheme() -> Seq<char> {
    "mdview-open:"@
}

/// The private origin local images are served from.
pub open spec fn image_origin() -> Seq<char> {
    "http://mdimg.localhost/"@
}

/// Where a link or image destination is pointed: local destinations become
/// `mdview-open:` links or `mdimg` image URLs carrying the percent-encoded
/// absolute path; everything else, and everything when there is no base
/// directory, is left as written (`None`).
pub open spec fn spec_rewrite(dest: Option<(bool, Seq<char>)>, base: Option<Seq<char>>) -> Option<
    Seq<char>,
> {
    match (dest, base) {
        (Some((is_image, url)), Some(b)) => match spec_resolve(url, b) {
            Some(path) => Some(
                (if is_image {
                    image_origin()
                } else {
                    open_scheme()
                }) + spec_percent_encode(path),
            ),
            None => None,
        },
        _ => None,
    }
}

/// [`spec_rewrite`] applied to every event.
pub open spec fn spec_rewrite_all(dests: Seq<Option<(bool, Seq<char>)>>, base: Option<Seq<char>>) -> Seq<
    Option<Seq<char>>,
> {
    dests.map_values(|d: Option<(bool, Seq<char>)>| spec_rewrite(d, base))
}

/// The text images are written with by the renderer.
pub open spec fn image_tag() -> Seq<char> {
    "<img src=\""@
}

/// The same tag with lazy loading.
pub open spec fn lazy_image_tag() -> Seq<char> {
    "<img loading=\"lazy\" src=\""@
}

/// `s` with every occurrence of the non-empty `pat`, found left to right
/// without overlap, replaced by `rep` (as `str::replace` does).
pub open spec fn replace_all(s: Seq<char>, pat: Seq<char>, rep: Seq<char>) -> Seq<char>
    decreases s.len(),
{
    if pat.len() == 0 || s.len() == 0 {
        s
    } else if starts_with(s, pat) {
        rep + replace_all(s.skip(pat.len() as int), pat, rep)
    } else {
        seq![s[0]] + replace_all(s.skip(1), pat, rep)
    }
}

/// The HTML of a document: rendered with tables, strikethrough and task
/// lists, destinations rewritten against `base`, images loaded lazily.
pub open spec fn spec_to_html(source: Seq<char>, base: Option<Seq<char>>) -> Seq<char> {
    replace_all(
        markdown_html(
            source,
            true,
            true,
            true,
            spec_rewrite_all(markdown_destinations(source, true, true, true), base),
        ),
        image_tag(),
        lazy_image_tag(),
    )
}

/// Tables, strikethrough and task lists are always on: whatever the base,
/// the document is parsed and written with all three extensions, and the
/// base changes only which destinations are replaced. So two bases that
/// rewrite the destinations alike give the same HTML, and a document
/// opened from a file renders its tables as the viewer's own notices do.
pub proof fn lemma_extensions_do_not_depend_on_the_base(
    source: Seq<char>,
    base: Option<Seq<char>>,
    other: Option<Seq<char>>,
)
    ensures
        spec_to_html(source, base) == replace_all(
            markdown_html(
                source,
                true,
                true,
                true,
                spec_rewrite_all(markdown_destinations(source, true, true, true), base),
            ),
            image_tag(),
            lazy_image_tag(),
        ),
        spec_rewrite_all(markdown_destinations(source, true, true, true), base) == spec_rewrite_all(
            markdown_destinations(source, true, true, true),
            other,
        ) ==> spec_to_html(source, base) == spec_to_html(source, other),
{
}

/// Without a base directory, no destination is rewritten: text the viewer
/// produced itself keeps every destination as written.
pub proof fn lemma_no_base_no_rewrite(dests: Seq<Option<(bool, Seq<char>)>>)
    ensures
        forall|i: int|
            0 <= i < dests.len() ==> (#[trigger] spec_rewrite_all(dests, None)[i]) is None,
{
}

/// A rewritten destination carries the percent-encoded path the destination
/// resolved to, behind the open scheme for links and the private image
/// origin for images; that path never names a host.
pub proof fn lemma_rewrites_carry_resolved_paths(is_image: bool, dest: Seq<char>, base: Seq<char>)
    ensures
        spec_rewrite(Some((is_image, dest)), Some(base)) is Some <==> spec_resolve(dest, base) is Some,
        spec_resolve(dest, base) matches Some(p) ==> {
            &&& spec_rewrite(Some((is_image, dest)), Some(base)) == Some(
                (if is_image {
                    image_origin()
                } else {
                    open_scheme()
                }) + spec_percent_encode(p),
            )
            &&& !spec_is_unc(p)
        },
{
}

/// `pat` occurs in `s` at `j`.
pub open spec fn occurs_at(s: Seq<char>, pat: Seq<char>, j: int) -> bool {
    0 <= j && j + pat.len() <= s.len() && s.subrange(j, j + pat.len()) == pat
}

proof fn lemma_tags()
    ensures
        image_tag() =~= seq!['<', 'i', 'm', 'g', ' ', 's', 'r', 'c', '=', '"'],
        lazy_image_tag() =~= seq![
            '<', 'i', 'm', 'g', ' ', 'l', 'o', 'a', 'd', 'i', 'n', 'g', '=', '"', 'l', 'a', 'z', 'y', '"',
            ' ', 's', 'r', 'c', '=', '"',
        ],
{
    reveal_strlit("<img src=\"");
    reveal_strlit("<img loading=\"lazy\" src=\"");
}

/// What lazy loading writes starts with a prefix `q` free of `<` only when
/// the input did.
proof fn lemma_lazy_keeps_plain_prefix(t: Seq<char>, q: Seq<char>)
    requires
        forall|i: int| 0 <= i < q.len() ==> q[i] != '<',
        starts_with(replace_all(t, image_tag(), lazy_image_tag()), q),
    ensures
        starts_with(t, q),
    decreases t.len(),
{
    lemma_tags();
    let out = replace_all(t, image_tag(), lazy_image_tag());
    if q.len() == 0 {
        assert(t.take(0) =~= q);
    } else if t.len() == 0 {
    } else if starts_with(t, image_tag()) {
        assert(out[0] == '<');
        assert(out.take(q.len() as int)[0] == q[0]);
    } else {
        let rest = replace_all(t.skip(1), image_tag(), lazy_image_tag());
        assert(out == seq![t[0]] + rest);
        assert(out.take(q.len() as int)[0] == q[0]);
        assert(rest.take(q.len() - 1) =~= out.take(q.len() as int).skip(1));
        assert(starts_with(rest, q.skip(1)));
        lemma_lazy_keeps_plain_prefix(t.skip(1), q.skip(1));
        assert(t.take(q.len() as int) =~= seq![t[0]] + t.skip(1).take(q.len() - 1));
        assert(q =~= seq![q[0]] + q.skip(1));
    }
}

/// Every image is loaded lazily: after lazy loading is added, no eager
/// image tag is left anywhere in the HTML.
pub proof fn lemma_no_eager_images(s: Seq<char>)
    ensures
        forall|j: int|
            !occurs_at(#[trigger] replace_all(s, image_tag(), lazy_image_tag()), image_tag(), j),
    decreases s.len(),
{
    lemma_tags();
    let pat = image_tag();
    let rep = lazy_image_tag();
    let out = replace_all(s, pat, rep);
    if s.len() == 0 {
    } else if starts_with(s, pat) {
        let rest = replace_all(s.skip(10), pat, rep);
        lemma_no_eager_images(s.skip(10));
        assert(out == rep + rest);
        assert forall|j: int| !occurs_at(out, pat, j) by {
            if occurs_at(out, pat, j) {
                if j >= 25 {
                    assert(rest.subrange(j - 25, j - 25 + 10) =~= out.subrange(j, j + 10));
                    assert(occurs_at(rest, pat, j - 25));
                } else {
                    assert(out.subrange(j, j + 10)[0] == out[j]);
                    assert(out[j] == rep[j]);
                    if j == 0 {
                        assert(out.subrange(j, j + 10)[5] == rep[5]);
                    }
                }
            }
        }
    } else {
        let rest = replace_all(s.skip(1), pat, rep);
        lemma_no_eager_images(s.skip(1));
        assert(out == seq![s[0]] + rest);
        assert forall|j: int| !occurs_at(out, pat, j) by {
            if occurs_at(out, pat, j) {
                if j >= 1 {
                    assert(rest.subrange(j - 1, j - 1 + 10) =~= out.subrange(j, j + 10));
                    assert(occurs_at(rest, pat, j - 1));
                } else {
                    let q = pat.skip(1);
                    assert(rest.take(9) =~= out.subrange(1, 10));
                    assert(out.subrange(0, 10).skip(1) =~= out.subrange(1, 10));
                    assert(starts_with(rest, q));
                    lemma_lazy_keeps_plain_prefix(s.skip(1), q);
                    assert(out.subrange(0, 10)[0] == s[0]);
                    assert(s.take(10) =~= seq![s[0]] + s.skip(1).take(9));
                    assert(pat =~= seq![pat[0]] + q);
                }
            }
        }
    }
}

/// Points one link or image destination at somewhere the viewer can act on.
/// Remote URLs, `mailto:` and fragments pass through exactly as written
/// (`None`), and so does everything when there is no base directory.
pub fn rewrite(dest: &Option<(bool, String)>, base: Option<&str>) -> (r: Option<String>)
    ensures
        r.deep_view() == spec_rewrite(dest.deep_view(), base.deep_view()),
{
    match (dest, base) {
        (Some((is_image, url)), Some(b)) => match resolve(url.as_str(), b) {
            Some(path) => {
                let mut out = if *is_image {
                    "http://mdimg.localhost/".to_owned()
                } else {
                    "mdview-open:".to_owned()
                };
                let encoded = percent_encode(path.as_str());
                out.append(encoded.as_str());
                Some(out)
            },
            None => None,
        },
        _ => None,
    }
}

/// [`rewrite`] applied to every event of a document.
pub fn rewrite_all(dests: &Vec<Option<(bool, String)>>, base: Option<&str>) -> (r: Vec<Option<String>>)
    ensures
        r.deep_view() == spec_rewrite_all(dests.deep_view(), base.deep_view()),
{
    let mut out: Vec<Option<String>> = Vec::new();
    let mut i: usize = 0;
    while i < dests.len()
        invariant
            i <= dests@.len(),
            out.deep_view() == spec_rewrite_all(dests.deep_view(), base.deep_view()).take(i as int),
        decreases dests@.len() - i,
    {
        let r = rewrite(&dests[i], base);
        let ghost before = out.deep_view();
        out.push(r);
        assert(out.deep_view() =~= before.push(r.deep_view()));
        assert(spec_rewrite_all(dests.deep_view(), base.deep_view()).take(i + 1) =~= spec_rewrite_all(
            dests.deep_view(),
            base.deep_view(),
        ).take(i as int).push(spec_rewrite(dests.deep_view()[i as int], base.deep_view())));
        i += 1;
    }
    assert(spec_rewrite_all(dests.deep_view(), base.deep_view()).take(i as int) =~= spec_rewrite_all(
        dests.deep_view(),
        base.deep_view(),
    ));
    out
}

/// `s[i..]` starts with `p`.
fn matches_at(s: &Vec<char>, i: usize, p: &Vec<char>) -> (r: bool)
    requires
        i <= s@.len(),
    ensures
        r == starts_with(s@.skip(i as int), p@),
{
    let len = s.len();
    if len - i < p.len() {
        return false;
    }
    let mut k: usize = 0;
    while k < p.len()
        invariant
            k <= p@.len(),
            len == s@.len(),
            i + p@.len() <= s@.len(),
            forall|j: int| 0 <= j < k ==> s@[i + j] == p@[j],
        decreases p@.len() - k,
    {
        if s[i + k] != p[k] {
            assert(s@.skip(i as int).take(p@.len() as int)[k as int] != p@[k as int]);
            return false;
        }
        k += 1;
    }
    assert(s@.skip(i as int).take(p@.len() as int) =~= p@);
    true
}

/// `s` with every occurrence of `pat` replaced by `rep`, left to right.
fn replace_chars(s: &Vec<char>, pat: &Vec<char>, rep: &Vec<char>) -> (out: String)
    requires
        pat@.len() > 0,
    ensures
        out@ == replace_all(s@, pat@, rep@),
{
    let mut out = String::new();
    let mut i: usize = 0;
    let len = s.len();
    assert(s@.skip(0) =~= s@);
    while i < len
        invariant
            i <= len,
            len == s@.len(),
            pat@.len() > 0,
            replace_all(s@, pat@, rep@) == out@ + replace_all(s@.skip(i as int), pat@, rep@),
        decreases len - i,
    {
        let ghost before = out@;
        let ghost t = s@.skip(i as int);
        if matches_at(s, i, pat) {
            let mut k: usize = 0;
            while k < rep.len()
                invariant
                    k <= rep@.len(),
                    out@ == before + rep@.take(k as int),
                decreases rep@.len() - k,
            {
                push_char(&mut out, rep[k]);
                assert(rep@.take(k + 1) =~= rep@.take(k as int).push(rep@[k as int]));
                k += 1;
            }
            assert(rep@.take(rep@.len() as int) =~= rep@);
            assert(t.skip(pat@.len() as int) =~= s@.skip(i + pat@.len()));
            assert(before + (rep@ + replace_all(t.skip(pat@.len() as int), pat@, rep@)) =~= out@
                + replace_all(s@.skip(i + pat@.len()), pat@, rep@));
            i = i + pat.len();
        } else {
            push_char(&mut out, s[i]);
            assert(t.skip(1) =~= s@.skip(i + 1));
            assert(before + (seq![t[0]] + replace_all(t.skip(1), pat@, rep@)) =~= out@
                + replace_all(s@.skip(i + 1), pat@, rep@));
            i = i + 1;
        }
    }
    assert(s@.skip(i as int) =~= Seq::<char>::empty());
    assert(out@ + Seq::<char>::empty() =~= out@);
    out
}

/// Adds lazy loading to every image the renderer wrote, so that a long
/// document does not fetch all its images at once.
pub fn add_lazy_loading(html: &str) -> (out: String)
    ensures
        out@ == replace_all(html@, image_tag(), lazy_image_tag()),
{
    let pat = chars_of("<img src=\"");
    let rep = chars_of("<img loading=\"lazy\" src=\"");
    proof {
        reveal_strlit("<img src=\"");
    }
    replace_chars(&chars_of(html), &pat, &rep)
}

/// Renders a Markdown document to HTML with tables, strikethrough and task
/// lists. `base` is the directory the document lives in: link and image
/// destinations are resolved against it here rather than being left to the
/// WebView. It is `None` for text the viewer produced itself, which has no
/// directory to resolve against and no destinations worth rewriting.
pub fn to_html(source: &str, base: Option<&str>) -> (html: String)
    ensures
        html@ == spec_to_html(source@, base.deep_view()),
{
    let dests = parse_destinations(source, true, true, true);
    let replacements = rewrite_all(&dests, base);
    assert(replacements@.len() == replacements.deep_view().len());
    let rendered = render_html(source, true, true, true, replacements);
    add_lazy_loading(rendered.as_str())
}

} // verus!
