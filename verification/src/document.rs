//! What the viewer shows: documents decoded from the bytes of a file, its own
//! notices, the startup request, and the media type of a local image.

use vstd::prelude::*;
use vstd::string::StringExecFns;
use vstd::utf8::{decode_utf8, valid_utf8};
use crate::markdown::{spec_to_html, to_html};
use crate::percent::utf8_to_string;
use crate::text::{ascii_lower, chars_eq, chars_of, str_eq, string_from_range, to_ascii_lower};
use crate::path_laws::{lemma_file_name_of_child, lemma_parent_of_named_path};
use crate::winpath::{file_name_of, is_plain_name, is_sep, parent_of, parse_path};

verus! {

/// A rendered document and the name it is shown under.
pub struct Document {
    pub file_name: String,
    pub html: String,
}

/// What the command line asks for.
pub enum Startup {
    /// Show the usage text.
    Usage,
    /// Show the version.
    Version,
    /// Open the file at this path.
    Open(String),
}

/// How many leading bytes are inspected for a NUL byte.
pub const BINARY_SNIFF_LEN: usize = 8192;

/// The file starts with a UTF-16 byte-order mark (either byte order).
pub open spec fn has_utf16_bom(b: Seq<u8>) -> bool {
    b.len() >= 2 && ((b[0] == 0xFF && b[1] == 0xFE) || (b[0] == 0xFE && b[1] == 0xFF))
}

/// A NUL byte appears among the first [`BINARY_SNIFF_LEN`] bytes.
pub open spec fn looks_binary(b: Seq<u8>) -> bool {
    exists|i: int| 0 <= i < b.len() && i < BINARY_SNIFF_LEN && b[i] == 0
}

/// The text without a leading UTF-8 byte-order mark.
pub open spec fn strip_bom(t: Seq<char>) -> Seq<char> {
    if t.len() > 0 && t[0] == '\u{feff}' {
        t.skip(1)
    } else {
        t
    }
}

/// The text of a file, or the message that says why it cannot be shown.
/// Each kind of unreadable input is named for what it is: UTF-16, binary,
/// or some other encoding.
pub open spec fn spec_decode_document(b: Seq<u8>, display: Seq<char>) -> Result<Seq<char>, Seq<char>> {
    if has_utf16_bom(b) {
        Err(display + " is UTF-16 encoded.\nmdview reads UTF-8 only."@)
    } else if looks_binary(b) {
        Err(display + " is a binary file, so it cannot be shown."@)
    } else if !valid_utf8(b) {
        Err(
            display
                + " is not valid UTF-8.\nmdview reads UTF-8 only (Shift_JIS and other encodings are not supported)."@,
        )
    } else {
        Ok(strip_bom(decode_utf8(b)))
    }
}

/// `display` followed by `tail`.
fn message(display: &str, tail: &str) -> (m: String)
    ensures
        m@ == display@ + tail@,
{
    let mut m = display.to_owned();
    m.append(tail);
    m
}

/// The message for a file that does not exist.
pub fn not_found_message(display: &str) -> (m: String)
    ensures
        m@ == "File not found: "@ + display@,
{
    let mut m = "File not found: ".to_owned();
    m.append(display);
    m
}

/// The message for a file that exists but cannot be read, with the reason
/// the system gave.
pub fn unreadable_message(display: &str, reason: &str) -> (m: String)
    ensures
        m@ == "Cannot read "@ + display@ + ": "@ + reason@,
{
    let mut m = "Cannot read ".to_owned();
    m.append(display);
    m.append(": ");
    m.append(reason);
    m
}

/// Decodes the bytes of a file into the text to render. `display` is how the
/// file is named in messages. Windows editors often prepend a UTF-8
/// byte-order mark, which would otherwise break heading detection at the
/// start of the file, so it is removed.
pub fn decode_document(bytes: Vec<u8>, display: &str) -> (r: Result<String, String>)
    ensures
        match r {
            Ok(t) => spec_decode_document(bytes@, display@) == Ok::<Seq<char>, Seq<char>>(t@),
            Err(m) => spec_decode_document(bytes@, display@) == Err::<Seq<char>, Seq<char>>(m@),
        },
{
    let len = bytes.len();
    if len >= 2 && ((bytes[0] == 0xFF && bytes[1] == 0xFE) || (bytes[0] == 0xFE && bytes[1] == 0xFF)) {
        return Err(message(display, " is UTF-16 encoded.\nmdview reads UTF-8 only."));
    }
    let mut i: usize = 0;
    while i < len && i < BINARY_SNIFF_LEN
        invariant
            i <= len,
            len == bytes@.len(),
            !has_utf16_bom(bytes@),
            forall|j: int| 0 <= j < i ==> bytes@[j] != 0,
        decreases len - i,
    {
        if bytes[i] == 0 {
            assert(looks_binary(bytes@)) by {
                assert(bytes@[i as int] == 0);
            }
            return Err(message(display, " is a binary file, so it cannot be shown."));
        }
        i += 1;
    }
    assert(!looks_binary(bytes@));
    let ghost b = bytes@;
    match utf8_to_string(bytes) {
        None => Err(
            message(
                display,
                " is not valid UTF-8.\nmdview reads UTF-8 only (Shift_JIS and other encodings are not supported).",
            ),
        ),
        Some(text) => {
            let cs = chars_of(text.as_str());
            if cs.len() > 0 && cs[0] == '\u{feff}' {
                let stripped = string_from_range(&cs, 1, cs.len());
                assert(cs@.subrange(1, cs@.len() as int) =~= cs@.skip(1));
                Ok(stripped)
            } else {
                Ok(text)
            }
        },
    }
}

/// The viewer's own usage text, in Markdown.
pub fn usage_markdown() -> (s: String)
    ensures
        s@ == "# mdview\n\nWindows向けの軽量Markdownビューア。\n\n    mdview <file.md>\n    mdview --help\n    mdview --version\n"@,
{
    "# mdview\n\nWindows向けの軽量Markdownビューア。\n\n    mdview <file.md>\n    mdview --help\n    mdview --version\n".to_owned()
}

/// The version notice, in Markdown.
pub fn version_markdown(version: &str) -> (s: String)
    ensures
        s@ == "# mdview "@ + version@ + "\n"@,
{
    let mut s = "# mdview ".to_owned();
    s.append(version);
    s.append("\n");
    s
}

/// What the first command-line argument asks for: no argument, `--help`,
/// `-h` or `/?` show the usage; `--version` or `-V` the version; anything
/// else names the file to open.
pub fn startup(arg: Option<&str>) -> (r: Startup)
    ensures
        match arg {
            None => r is Usage,
            Some(a) => if a@ == "--help"@ || a@ == "-h"@ || a@ == "/?"@ {
                r is Usage
            } else if a@ == "--version"@ || a@ == "-V"@ {
                r is Version
            } else {
                r matches Startup::Open(p) && p@ == a@
            },
        },
{
    match arg {
        None => Startup::Usage,
        Some(a) => {
            if str_eq(a, "--help") || str_eq(a, "-h") || str_eq(a, "/?") {
                Startup::Usage
            } else if str_eq(a, "--version") || str_eq(a, "-V") {
                Startup::Version
            } else {
                Startup::Open(a.to_owned())
            }
        },
    }
}

/// The viewer's own output, shown as an ordinary document rather than as an
/// error so that `--help` does not arrive dressed as a failure. It has no
/// directory, so no destination in it is rewritten.
pub fn notice(markdown_source: &str) -> (d: Document)
    ensures
        d.file_name@ == "mdview"@,
        d.html@ == spec_to_html(markdown_source@, None),
{
    Document { file_name: "mdview".to_owned(), html: to_html(markdown_source, None) }
}

/// The directory a document's destinations resolve against: the directory
/// of its canonical path, when there is one.
pub open spec fn document_base(canonical: Option<Seq<char>>) -> Option<Seq<char>> {
    match canonical {
        Some(c) => parse_path(c).parent(),
        None => None,
    }
}

/// The name a document is shown under: the file name of its canonical path
/// (or of the argument, when there is none), else the argument itself.
pub open spec fn document_title(canonical: Option<Seq<char>>, arg: Seq<char>) -> Seq<char> {
    let path = match canonical {
        Some(c) => c,
        None => arg,
    };
    match parse_path(path).file_name() {
        Some(n) => n,
        None => arg,
    }
}

/// When the canonical path names a file, the title is that file name,
/// whatever the argument was: opening `C:\work\docs\README.md` by its full
/// path shows `README.md`.
pub proof fn lemma_title_is_the_file_name(c: Seq<char>, arg: Seq<char>, other: Seq<char>)
    requires
        parse_path(c).file_name() is Some,
    ensures
        document_title(Some(c), arg) == parse_path(c).file_name()->0,
        document_title(Some(c), arg) == document_title(Some(c), other),
{
}

/// The title of a document whose canonical path is a directory followed by
/// a name is that name, and it holds no separator.
pub proof fn lemma_title_of_a_file_in_a_directory(d: Seq<char>, f: Seq<char>, arg: Seq<char>)
    requires
        d.len() == 0 || !is_sep(d[0]),
        is_plain_name(f),
        forall|i: int| 0 <= i < f.len() ==> !is_sep(#[trigger] f[i]),
    ensures
        document_title(Some(d + seq!['\\'] + f), arg) == f,
        forall|i: int|
            0 <= i < document_title(Some(d + seq!['\\'] + f), arg).len() ==> !is_sep(
                #[trigger] document_title(Some(d + seq!['\\'] + f), arg)[i],
            ),
{
    lemma_file_name_of_child(d, f);
}

/// A document whose canonical path names a file has a base directory, the
/// path without its file name, so its local destinations are rewritten:
/// `\\?\D:\notes.md` resolves against `\\?\D:\`.
pub proof fn lemma_named_documents_have_a_base(c: Seq<char>)
    requires
        parse_path(c).file_name() is Some,
    ensures
        document_base(Some(c)) is Some,
        parse_path(c).comps.len() == 1 ==> document_base(Some(c)) == Some(
            parse_path(c).prefix + if parse_path(c).root_dir() {
                seq!['\\']
            } else {
                Seq::<char>::empty()
            },
        ),
{
    lemma_parent_of_named_path(c);
}

/// The document for the text of the file named by `arg`. The canonical path
/// is what everything downstream works from: the name shown, and the
/// directory link and image destinations resolve against.
pub fn open_document(text: &str, canonical: Option<&str>, arg: &str) -> (d: Document)
    ensures
        d.file_name@ == document_title(canonical.deep_view(), arg@),
        d.html@ == spec_to_html(text@, document_base(canonical.deep_view())),
{
    let base = match canonical {
        Some(c) => parent_of(c),
        None => None,
    };
    let html = match &base {
        Some(b) => to_html(text, Some(b.as_str())),
        None => to_html(text, None),
    };
    let path = match canonical {
        Some(c) => c,
        None => arg,
    };
    let file_name = match file_name_of(path) {
        Some(n) => n,
        None => arg.to_owned(),
    };
    Document { file_name, html }
}

/// The HTML for a document at `path` whose text changed on disk; its
/// destinations resolve against the directory it lies in.
pub fn render_document(text: &str, path: &str) -> (html: String)
    ensures
        html@ == spec_to_html(text@, parse_path(path@).parent()),
{
    match parent_of(path) {
        Some(b) => to_html(text, Some(b.as_str())),
        None => to_html(text, None),
    }
}

/// The last `.` of `name`, if any.
pub open spec fn last_dot(name: Seq<char>) -> Option<nat>
    decreases name.len(),
{
    if name.len() == 0 {
        None
    } else if name.last() == '.' {
        Some((name.len() - 1) as nat)
    } else {
        last_dot(name.drop_last())
    }
}

/// The extension of a file name: what follows its last `.`, unless that dot
/// starts the name.
pub open spec fn extension(name: Seq<char>) -> Option<Seq<char>> {
    if name =~= seq!['.', '.'] {
        None
    } else {
        match last_dot(name) {
            Some(k) => if k == 0 {
                None
            } else {
                Some(name.skip(k + 1int))
            },
            None => None,
        }
    }
}

/// The media type for a lower-case extension.
pub open spec fn mime_of_extension(e: Seq<char>) -> Seq<char> {
    if e == "png"@ {
        "image/png"@
    } else if e == "jpg"@ || e == "jpeg"@ {
        "image/jpeg"@
    } else if e == "gif"@ {
        "image/gif"@
    } else if e == "webp"@ {
        "image/webp"@
    } else if e == "svg"@ {
        "image/svg+xml"@
    } else if e == "bmp"@ {
        "image/bmp"@
    } else if e == "ico"@ {
        "image/x-icon"@
    } else if e == "avif"@ {
        "image/avif"@
    } else {
        "application/octet-stream"@
    }
}

/// The media type an image is served with, from its extension in any letter
/// case; anything unknown is served as an octet stream.
pub open spec fn spec_mime_for(path: Seq<char>) -> Seq<char> {
    match parse_path(path).file_name() {
        Some(n) => match extension(n) {
            Some(e) => mime_of_extension(e.map_values(|c: char| ascii_lower(c))),
            None => "application/octet-stream"@,
        },
        None => "application/octet-stream"@,
    }
}

/// Exec form of [`last_dot`].
fn last_dot_of(name: &Vec<char>) -> (r: Option<usize>)
    ensures
        match r {
            Some(k) => last_dot(name@) == Some(k as nat) && k < name@.len(),
            None => last_dot(name@) is None,
        },
{
    let mut i = name.len();
    assert(name@.take(name@.len() as int) =~= name@);
    while i > 0 && name[i - 1] != '.'
        invariant
            i <= name@.len(),
            last_dot(name@) == last_dot(name@.take(i as int)),
        decreases i,
    {
        assert(name@.take(i as int).drop_last() =~= name@.take(i - 1));
        i -= 1;
    }
    assert(name@.take(name@.len() as int) =~= name@);
    if i == 0 {
        assert(name@.take(0) =~= Seq::<char>::empty());
        None
    } else {
        Some(i - 1)
    }
}

/// `e` spells `lit`.
fn is_ext(e: &Vec<char>, lit: &str) -> (r: bool)
    ensures
        r == (e@ == lit@),
{
    chars_eq(e, &chars_of(lit))
}

/// The media type an image is served with, from its extension in any letter
/// case; anything unknown is served as an octet stream.
pub fn mime_for(path: &str) -> (m: &'static str)
    ensures
        m@ == spec_mime_for(path@),
{
    let octet = "application/octet-stream";
    let name = match file_name_of(path) {
        Some(n) => chars_of(n.as_str()),
        None => return octet,
    };
    let dots = chars_of("..");
    proof {
        reveal_strlit("..");
        assert(dots@ =~= seq!['.', '.']);
    }
    if chars_eq(&name, &dots) {
        return octet;
    }
    let k = match last_dot_of(&name) {
        Some(k) => k,
        None => return octet,
    };
    if k == 0 {
        return octet;
    }
    let nlen = name.len();
    let mut e: Vec<char> = Vec::new();
    let mut i = k + 1;
    let ghost ext = name@.skip(k + 1);
    while i < name.len()
        invariant
            k + 1 <= i <= name@.len(),
            ext == name@.skip(k + 1),
            e@ == ext.take(i - k - 1).map_values(|c: char| ascii_lower(c)),
        decreases name@.len() - i,
    {
        let c = to_ascii_lower(name[i]);
        e.push(c);
        assert(ext.take(i + 1 - k - 1).map_values(|c: char| ascii_lower(c)) =~= ext.take(
            i - k - 1,
        ).map_values(|c: char| ascii_lower(c)).push(ascii_lower(name@[i as int])));
        i += 1;
    }
    assert(ext.take(i - k - 1) =~= ext);
    assert(extension(name@) == Some(ext));
    if is_ext(&e, "png") {
        "image/png"
    } else if is_ext(&e, "jpg") || is_ext(&e, "jpeg") {
        "image/jpeg"
    } else if is_ext(&e, "gif") {
        "image/gif"
    } else if is_ext(&e, "webp") {
        "image/webp"
    } else if is_ext(&e, "svg") {
        "image/svg+xml"
    } else if is_ext(&e, "bmp") {
        "image/bmp"
    } else if is_ext(&e, "ico") {
        "image/x-icon"
    } else if is_ext(&e, "avif") {
        "image/avif"
    } else {
        octet
    }
}

} // verus!
