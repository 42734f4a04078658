//! Resolving the destinations that appear in a document's links and images.
//!
//! Resolution is lexical: a destination becomes an absolute path without the
//! filesystem being consulted, so a link to a file that does not exist still
//! resolves. The viewer opens it and reports the problem itself.

use vstd::prelude::*;
use crate::percent::{lemma_decoding_passes_plain_text, spec_percent_decode};
pub use crate::percent::{percent_decode, percent_encode};
use crate::text::{
    ascii_lower, chars_of, first_index, is_ascii_alpha, is_ascii_digit, lemma_first_index,
    lemma_first_index_unique, string_from_range, to_ascii_lower,
};
use crate::winpath::{
    is_plain_name, is_sep, lemma_join_plain, lemma_normal_names_plain, lemma_parse_plain, no_drive_names,
    normal_names, parse, parse_path, parse_prefix, render, sep_pred, starts_verbatim, starts_with_drive,
    PathModel, PrefixKind,
};

verus! {

/// Characters allowed in a URL scheme after its first letter.
pub open spec fn is_scheme_char(c: char) -> bool {
    is_ascii_alpha(c) || is_ascii_digit(c) || c == '+' || c == '.' || c == '-'
}

/// The test for a colon.
pub open spec fn colon_pred() -> spec_fn(char) -> bool {
    |c: char| c == ':'
}

/// The test for the start of a fragment or a query.
pub open spec fn query_pred() -> spec_fn(char) -> bool {
    |c: char| c == '#' || c == '?'
}

/// True when a destination begins with a URL scheme such as `https:` or
/// `mailto:`. A single-letter scheme is read as a Windows drive letter
/// instead, so an absolute path like `C:` followed by a directory stays a
/// path.
pub open spec fn spec_has_scheme(d: Seq<char>) -> bool {
    let colon = first_index(d, colon_pred());
    &&& colon < d.len()
    &&& colon >= 2
    &&& is_ascii_alpha(d[0])
    &&& forall|i: int| 0 <= i < colon ==> is_scheme_char(#[trigger] d[i])
}

/// True for a path that names a host rather than a local file: a verbatim
/// `\\?\UNC\` path (in any letter case), or any other path starting with two
/// separators, `\` and `/` in any mix, as Windows reads all of them as naming
/// a host.
pub open spec fn spec_is_unc(t: Seq<char>) -> bool {
    if starts_verbatim(t) {
        let rest = t.skip(4);
        let head = rest.take(first_index(rest, sep_pred(false)) as int);
        &&& head.len() == 3
        &&& ascii_lower(head[0]) == 'u'
        &&& ascii_lower(head[1]) == 'n'
        &&& ascii_lower(head[2]) == 'c'
    } else {
        t.len() >= 2 && is_sep(t[0]) && is_sep(t[1])
    }
}

/// A destination that names a host: it starts with two separators, such as
/// `//host` or `\\host`, in any mix of `/` and `\`.
pub open spec fn names_host(d: Seq<char>) -> bool {
    d.len() >= 2 && is_sep(d[0]) && is_sep(d[1])
}

/// A destination that stands for a local path: not empty, not a fragment,
/// naming no host, carrying no scheme, and with a path before any fragment
/// or query.
pub open spec fn is_local_destination(d: Seq<char>) -> bool {
    &&& d.len() > 0
    &&& d[0] != '#'
    &&& !names_host(d)
    &&& !spec_has_scheme(d)
    &&& without_query(d).len() > 0
}

/// The destination without any fragment or query.
pub open spec fn without_query(d: Seq<char>) -> Seq<char> {
    d.take(first_index(d, query_pred()) as int)
}

/// The path a local destination stands for: percent-escapes decoded when
/// they decode, the raw text otherwise.
pub open spec fn local_target(d: Seq<char>) -> Seq<char> {
    let trimmed = without_query(d);
    match spec_percent_decode(trimmed) {
        Some(s) => s,
        None => trimmed,
    }
}

/// The absolute path a destination points at, or `None` when it is not a
/// plain local path (a fragment, a URL carrying a scheme, or a destination
/// naming a remote host), or when what it resolves to is not an absolute
/// local path: a network path, or a path left relative to some drive.
pub open spec fn spec_resolve(dest: Seq<char>, base: Seq<char>) -> Option<Seq<char>> {
    if !is_local_destination(dest) {
        None
    } else {
        let resolved = parse_path(base).join(parse_path(local_target(dest))).normalized();
        if spec_is_unc(resolved) || !parse_path(resolved).is_absolute() {
            None
        } else {
            Some(resolved)
        }
    }
}

/// The parsed path a local destination resolves to, before `.` and `..`
/// are walked: the destination continued from the document's directory, or
/// standing alone when it carries a prefix of its own.
pub open spec fn resolution(dest: Seq<char>, base: Seq<char>) -> PathModel {
    parse_path(base).join(parse_path(local_target(dest)))
}

/// Fragments, URLs with a scheme and destinations naming a host are left
/// exactly as the author wrote them.
pub proof fn lemma_non_local_destinations_are_kept(dest: Seq<char>, base: Seq<char>)
    requires
        dest.len() == 0 || dest[0] == '#' || names_host(dest) || spec_has_scheme(dest),
    ensures
        spec_resolve(dest, base) is None,
{
}

/// Resolution is lexical and complete: unless a name along the way starts
/// with a drive (which restarts the path there), a resolved destination is
/// the prefix and root of its resolution followed by plain names only, with
/// every `.` and `..` walked away. It is always absolute and never names a
/// host.
pub proof fn lemma_resolved_paths_are_plain(dest: Seq<char>, base: Seq<char>)
    ensures
        spec_resolve(dest, base) matches Some(r) ==> !spec_is_unc(r) && parse_path(r).is_absolute(),
        no_drive_names(resolution(dest, base).comps) ==> (spec_resolve(dest, base) matches Some(r)
            ==> {
            let m = resolution(dest, base);
            &&& r == render(m.prefix, m.root_after_walk(normal_names(m.comps)), normal_names(m.comps))
            &&& forall|i: int|
                0 <= i < normal_names(m.comps).len() ==> is_plain_name(
                    #[trigger] normal_names(m.comps)[i],
                )
        }),
{
    let a = parse_path(base);
    let b = parse_path(local_target(dest));
    lemma_parse_plain(base);
    lemma_parse_plain(local_target(dest));
    lemma_join_plain(a, b);
    if no_drive_names(a.join(b).comps) {
        lemma_normal_names_plain(a.join(b).comps);
    }
}

/// The prefix a path parses with is a drive exactly when it is the two
/// characters of a drive letter and a colon.
proof fn lemma_disk_prefix(s: Seq<char>)
    requires
        parse_path(s).kind == Some(PrefixKind::Disk),
    ensures
        parse_path(s).prefix.len() == 2,
        starts_with_drive(parse_path(s).prefix),
{
}

/// A local destination whose resolution is a drive with a root (the
/// document's directory `C:\work\docs` with `../x.md`, or a destination such as
/// `D:\x.md` of its own) resolves, provided no name along the way starts with
/// a drive: the result is that drive, a root, and the names left after `.`
/// and `..` are walked.
pub proof fn lemma_local_destinations_resolve(dest: Seq<char>, base: Seq<char>)
    requires
        is_local_destination(dest),
        resolution(dest, base).kind == Some(PrefixKind::Disk),
        resolution(dest, base).physical_root,
        no_drive_names(resolution(dest, base).comps),
    ensures
        spec_resolve(dest, base) == Some(
            render(resolution(dest, base).prefix, true, normal_names(resolution(dest, base).comps)),
        ),
{
    let a = parse_path(base);
    let b = parse_path(local_target(dest));
    let m = resolution(dest, base);
    lemma_parse_plain(base);
    lemma_parse_plain(local_target(dest));
    lemma_join_plain(a, b);
    lemma_normal_names_plain(m.comps);
    if b.kind is Some {
        lemma_disk_prefix(local_target(dest));
    } else {
        lemma_disk_prefix(base);
    }
    let r = render(m.prefix, true, normal_names(m.comps));
    assert(m.normalized() == r);
    assert(r[0] == m.prefix[0] && r[1] == ':' && r[2] == '\\');
    assert(!spec_is_unc(r));
    assert(parse_prefix(r) == Some((PrefixKind::Disk, 2nat)));
    assert(r.skip(2)[0] == '\\');
    assert(parse_path(r).is_absolute());
}

/// Every path that parses with a network prefix (`\\server\share`, written
/// with either separator, or `\\?\UNC\server\share`) is recognised as naming a
/// host.
pub proof fn lemma_network_prefixes_are_unc(t: Seq<char>)
    ensures
        parse_path(t).kind == Some(PrefixKind::Unc) || parse_path(t).kind == Some(
            PrefixKind::VerbatimUnc,
        ) ==> spec_is_unc(t),
{
    if parse_path(t).kind == Some(PrefixKind::VerbatimUnc) {
        let rest = t.skip(4);
        assert(rest[0] == 'U' && rest[1] == 'N' && rest[2] == 'C' && is_sep(rest[3]));
        lemma_first_index_unique(rest, sep_pred(false), 3);
        let head = rest.take(3);
        assert(head[0] == 'U' && head[1] == 'N' && head[2] == 'C');
    }
}

/// A fragment or a query after a destination does not change where it
/// resolves: `x.md#top` and `x.md?raw=1` resolve as `x.md` does, and `#x`
/// or `?x` alone resolve nowhere, as the empty destination does.
pub proof fn lemma_fragment_and_query_are_ignored(s: Seq<char>, x: Seq<char>, base: Seq<char>)
    requires
        forall|i: int| 0 <= i < s.len() ==> #[trigger] s[i] != '#' && s[i] != '?',
    ensures
        spec_resolve(s + seq!['#'] + x, base) == spec_resolve(s, base),
        spec_resolve(s + seq!['?'] + x, base) == spec_resolve(s, base),
{
    lemma_suffix_is_ignored(s, '#', x, base);
    lemma_suffix_is_ignored(s, '?', x, base);
}

/// Whatever follows a `#` or `?` after a destination leaves its resolution
/// as it is.
proof fn lemma_suffix_is_ignored(s: Seq<char>, c: char, x: Seq<char>, base: Seq<char>)
    requires
        c == '#' || c == '?',
        forall|i: int| 0 <= i < s.len() ==> #[trigger] s[i] != '#' && s[i] != '?',
    ensures
        spec_resolve(s + seq![c] + x, base) == spec_resolve(s, base),
{
    let d = s + seq![c] + x;
    assert forall|i: int| 0 <= i < s.len() implies #[trigger] d[i] == s[i] by {}
    assert(d[s.len() as int] == c);
    // The part before any fragment or query is `s` itself.
    assert forall|i: int| 0 <= i < s.len() implies !(#[trigger] query_pred()(d[i])) by {
        assert(d[i] == s[i]);
    }
    lemma_first_index_unique(d, query_pred(), s.len() as int);
    lemma_first_index_unique(s, query_pred(), s.len() as int);
    assert(without_query(d) =~= s);
    assert(without_query(s) =~= s);
    // The suffix changes neither the first two characters nor the scheme.
    if s.len() >= 2 {
        assert(d[0] == s[0] && d[1] == s[1]);
    }
    let cd = first_index(d, colon_pred());
    let cs = first_index(s, colon_pred());
    lemma_first_index(d, colon_pred());
    lemma_first_index(s, colon_pred());
    if cs < s.len() {
        assert forall|i: int| 0 <= i < cs implies !(#[trigger] colon_pred()(d[i])) by {
            assert(d[i] == s[i]);
        }
        assert(d[cs as int] == s[cs as int]);
        lemma_first_index_unique(d, colon_pred(), cs as int);
        assert(spec_has_scheme(d) == spec_has_scheme(s)) by {
            if spec_has_scheme(s) {
                assert forall|i: int| 0 <= i < cd implies is_scheme_char(#[trigger] d[i]) by {
                    assert(d[i] == s[i]);
                }
            }
            if spec_has_scheme(d) {
                assert forall|i: int| 0 <= i < cs implies is_scheme_char(#[trigger] s[i]) by {
                    assert(d[i] == s[i]);
                }
            }
        }
    } else {
        if cd < s.len() {
            assert(d[cd as int] == s[cd as int]);
        }
        assert(cd != s.len());
        if spec_has_scheme(d) {
            assert(is_scheme_char(d[s.len() as int]));
        }
    }
}

/// A destination holding no `%` stands for its own text, up to any
/// fragment or query, whatever characters it holds: `./資料.md` is the path
/// `./資料.md`.
pub proof fn lemma_unescaped_destinations_are_taken_literally(d: Seq<char>)
    requires
        forall|i: int| 0 <= i < d.len() ==> #[trigger] d[i] != '%',
    ensures
        local_target(d) == without_query(d),
{
    let w = without_query(d);
    lemma_first_index(d, query_pred());
    assert forall|i: int| 0 <= i < w.len() implies #[trigger] w[i] != '%' by {
        assert(w[i] == d[i]);
    }
    lemma_decoding_passes_plain_text(w, Seq::<char>::empty());
}

/// Index of the first `:` in `d` (`d.len()` when there is none).
fn colon_index(d: &Vec<char>) -> (n: usize)
    ensures
        n == first_index(d@, colon_pred()),
{
    let mut i: usize = 0;
    while i < d.len() && d[i] != ':'
        invariant
            i <= d@.len(),
            forall|j: int| 0 <= j < i ==> !(#[trigger] colon_pred()(d@[j])),
        decreases d@.len() - i,
    {
        i += 1;
    }
    proof {
        lemma_first_index_unique(d@, colon_pred(), i as int);
    }
    i
}

/// Index of the first `#` or `?` in `d` (`d.len()` when there is none).
fn query_index(d: &Vec<char>) -> (n: usize)
    ensures
        n == first_index(d@, query_pred()),
        n <= d@.len(),
{
    let mut i: usize = 0;
    while i < d.len() && d[i] != '#' && d[i] != '?'
        invariant
            i <= d@.len(),
            forall|j: int| 0 <= j < i ==> !(#[trigger] query_pred()(d@[j])),
        decreases d@.len() - i,
    {
        i += 1;
    }
    proof {
        lemma_first_index_unique(d@, query_pred(), i as int);
    }
    i
}

/// Exec form of [`spec_has_scheme`].
fn has_scheme(d: &Vec<char>) -> (r: bool)
    ensures
        r == spec_has_scheme(d@),
{
    let colon = colon_index(d);
    if colon >= d.len() || colon < 2 {
        return false;
    }
    let first = d[0];
    if !(('a' <= first && first <= 'z') || ('A' <= first && first <= 'Z')) {
        return false;
    }
    let mut i: usize = 0;
    while i < colon
        invariant
            i <= colon < d@.len(),
            colon >= 2,
            colon == first_index(d@, colon_pred()),
            is_ascii_alpha(d@[0]),
            forall|j: int| 0 <= j < i ==> is_scheme_char(#[trigger] d@[j]),
        decreases colon - i,
    {
        let c = d[i];
        if !(('a' <= c && c <= 'z') || ('A' <= c && c <= 'Z') || ('0' <= c && c <= '9') || c == '+'
            || c == '.' || c == '-') {
            assert(!is_scheme_char(d@[i as int]));
            return false;
        }
        i += 1;
    }
    true
}

/// True for a path that names a host rather than a local file. Reading one
/// turns into an SMB connection that hands the user's credentials to
/// whatever host the document named, so such paths are refused outright.
pub fn is_unc(path: &str) -> (r: bool)
    ensures
        r == spec_is_unc(path@),
{
    let t = chars_of(path);
    let len = t.len();
    if len >= 4 && t[0] == '\\' && t[1] == '\\' && t[2] == '?' && t[3] == '\\' {
        let ghost rest = t@.skip(4);
        let mut i: usize = 4;
        while i < len && t[i] != '\\' && t[i] != '/'
            invariant
                4 <= i <= len,
                len == t@.len(),
                rest == t@.skip(4),
                forall|j: int| 0 <= j < i - 4 ==> !(#[trigger] sep_pred(false)(rest[j])),
            decreases len - i,
        {
            assert(rest[i - 4] == t@[i as int]);
            i += 1;
        }
        proof {
            if i < len {
                assert(rest[i - 4] == t@[i as int]);
            }
            lemma_first_index_unique(rest, sep_pred(false), i - 4);
        }
        if i - 4 != 3 {
            return false;
        }
        let ghost head = rest.take(3);
        assert(head[0] == t@[4] && head[1] == t@[5] && head[2] == t@[6]);
        to_ascii_lower(t[4]) == 'u' && to_ascii_lower(t[5]) == 'n' && to_ascii_lower(t[6]) == 'c'
    } else {
        len >= 2 && (t[0] == '\\' || t[0] == '/') && (t[1] == '\\' || t[1] == '/')
    }
}

/// The absolute path a destination points at, resolved against `base` (the
/// directory the document lives in), or `None` when the destination is not a
/// plain local path and must be left exactly as the author wrote it: a
/// fragment, a URL carrying a scheme, or a destination naming a remote host.
/// A destination that resolves to a network path is refused as well, and so
/// is one that resolves to no absolute path (`C:x`, relative to whatever
/// directory drive `C:` is at).
pub fn resolve(dest: &str, base: &str) -> (r: Option<String>)
    ensures
        r.deep_view() == spec_resolve(dest@, base@),
        r matches Some(p) ==> !spec_is_unc(p@) && parse_path(p@).is_absolute(),
{
    let d = chars_of(dest);
    let len = d.len();
    if len == 0 || d[0] == '#' {
        return None;
    }
    // `//host/path`, its backslash form and any mix of the two name a host,
    // not a local file.
    if len >= 2 && (d[0] == '/' || d[0] == '\\') && (d[1] == '/' || d[1] == '\\') {
        return None;
    }
    if has_scheme(&d) {
        return None;
    }
    // A fragment or query on a local path has nowhere to go: headings carry
    // no ids, and a file takes no query string.
    let n = query_index(&d);
    if n == 0 {
        return None;
    }
    let trimmed = string_from_range(&d, 0, n);
    assert(trimmed@ =~= without_query(d@));
    // Markdown authors percent-encode spaces; a literal `%` that is not an
    // escape leaves the decode failing, and the raw text is the right answer.
    let raw = match percent_decode(&trimmed) {
        Some(s) => chars_of(&s),
        None => chars_of(&trimmed),
    };
    assert(raw@ == local_target(d@));
    let base_path = parse(&chars_of(base));
    let joined = base_path.join(parse(&raw));
    let resolved = joined.normalized();
    if is_unc(&resolved) {
        return None;
    }
    if !parse(&chars_of(&resolved)).is_absolute() {
        return None;
    }
    Some(resolved)
}

} // verus!
