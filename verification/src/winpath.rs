//! A lexical model of Windows paths: prefixes, roots and components, and the
//! operations the viewer performs on them (join, normalise, parent, file
//! name), all without consulting the filesystem.
//!
//! The model follows the Windows path grammar: `\` and `/` both separate
//! components, except in verbatim (`\\?\`) paths where only `\` does; a path
//! may start with a drive (`C:`), a UNC share (`\\server\share`), a device
//! namespace (`\\.\NAME`) or a verbatim prefix (`\\?\...`).

use vstd::prelude::*;
use crate::text::{
    chars_of, first_index, is_ascii_alpha, lemma_first_index, lemma_first_index_unique, push_char,
    push_chars, string_from_chars,
};

verus! {

/// The kinds of prefix a Windows path can start with.
#[derive(PartialEq, Eq, Structural, Clone, Copy, Debug)]
pub enum PrefixKind {
    /// `\\?\name`
    Verbatim,
    /// `\\?\UNC\server\share`
    VerbatimUnc,
    /// `\\?\C:`
    VerbatimDisk,
    /// `\\.\name`
    DeviceNs,
    /// `\\server\share`
    Unc,
    /// `C:`
    Disk,
}

impl PrefixKind {
    /// Verbatim paths take their text literally: only `\` separates, and `.`
    /// is a component of its own.
    pub open spec fn is_verbatim(self) -> bool {
        self is Verbatim || self is VerbatimUnc || self is VerbatimDisk
    }

    /// Every prefix but a bare drive implies a root.
    pub open spec fn has_implicit_root(self) -> bool {
        !(self is Disk)
    }
}

/// One component of a path body.
pub enum Comp {
    /// `.` (kept only in verbatim paths)
    Cur,
    /// `..`
    Parent,
    /// Any other non-empty name.
    Normal(Seq<char>),
}

/// A parsed path: the prefix text and kind, whether a separator follows the
/// prefix, and the components of the body.
pub struct PathModel {
    pub prefix: Seq<char>,
    pub kind: Option<PrefixKind>,
    pub physical_root: bool,
    pub comps: Seq<Comp>,
}

/// `c` separates components in an ordinary path.
pub open spec fn is_sep(c: char) -> bool {
    c == '\\' || c == '/'
}

/// `c` separates components; in a verbatim path only `\` does.
pub open spec fn is_sep_for(c: char, verbatim: bool) -> bool {
    c == '\\' || (!verbatim && c == '/')
}

/// The separator test of a path with or without a verbatim prefix.
pub open spec fn sep_pred(verbatim: bool) -> spec_fn(char) -> bool {
    |c: char| is_sep_for(c, verbatim)
}

/// Length of the component at the start of `s`.
pub open spec fn component_len(s: Seq<char>, verbatim: bool) -> nat {
    first_index(s, sep_pred(verbatim))
}

/// What follows the first component of `s` and its separator.
pub open spec fn after_component(s: Seq<char>, verbatim: bool) -> Seq<char> {
    let n = component_len(s, verbatim);
    if n < s.len() {
        s.skip(n + 1int)
    } else {
        Seq::empty()
    }
}

/// `s` starts with a drive letter and a colon.
pub open spec fn starts_with_drive(s: Seq<char>) -> bool {
    s.len() >= 2 && is_ascii_alpha(s[0]) && s[1] == ':'
}

/// `s` starts with exactly `\\?\`.
pub open spec fn starts_verbatim(s: Seq<char>) -> bool {
    s.len() >= 4 && s[0] == '\\' && s[1] == '\\' && s[2] == '?' && s[3] == '\\'
}

/// The prefix of `s`, if any, as its kind and its length in characters.
pub open spec fn parse_prefix(s: Seq<char>) -> Option<(PrefixKind, nat)> {
    if s.len() >= 2 && is_sep(s[0]) && is_sep(s[1]) {
        if starts_verbatim(s) {
            let r = s.skip(4);
            if r.len() >= 4 && r[0] == 'U' && r[1] == 'N' && r[2] == 'C' && r[3] == '\\' {
                let t = r.skip(4);
                let server = component_len(t, true);
                let share = component_len(after_component(t, true), true);
                Some(
                    (
                        PrefixKind::VerbatimUnc,
                        8 + server + if share > 0 {
                            1 + share
                        } else {
                            0nat
                        },
                    ),
                )
            } else if starts_with_drive(r) && (r.len() == 2 || r[2] == '\\') {
                Some((PrefixKind::VerbatimDisk, 6nat))
            } else {
                Some((PrefixKind::Verbatim, 4 + component_len(r, true)))
            }
        } else if s.len() >= 4 && s[2] == '.' && is_sep(s[3]) {
            Some((PrefixKind::DeviceNs, 4 + component_len(s.skip(4), false)))
        } else {
            let t = s.skip(2);
            let server = component_len(t, false);
            let share = component_len(after_component(t, false), false);
            if server > 0 && share > 0 {
                Some((PrefixKind::Unc, 3 + server + share))
            } else {
                None
            }
        }
    } else if starts_with_drive(s) {
        Some((PrefixKind::Disk, 2nat))
    } else {
        None
    }
}

/// The component a piece of a body stands for, if any: empty pieces vanish,
/// and so does `.` outside verbatim paths.
pub open spec fn classify(piece: Seq<char>, verbatim: bool) -> Option<Comp> {
    if piece.len() == 0 {
        None
    } else if piece =~= seq!['.'] {
        if verbatim {
            Some(Comp::Cur)
        } else {
            None
        }
    } else if piece =~= seq!['.', '.'] {
        Some(Comp::Parent)
    } else {
        Some(Comp::Normal(piece))
    }
}

/// The components of a path body, split at separators.
pub open spec fn body_comps(s: Seq<char>, verbatim: bool) -> Seq<Comp>
    decreases s.len(),
{
    let n = component_len(s, verbatim);
    let head = match classify(s.take(n as int), verbatim) {
        Some(c) => seq![c],
        None => Seq::empty(),
    };
    if n < s.len() {
        proof {
            lemma_first_index(s, sep_pred(verbatim));
        }
        head + body_comps(s.skip(n + 1int), verbatim)
    } else {
        head
    }
}

/// The length of the prefix of `s` (0 when it has none).
pub open spec fn prefix_len(s: Seq<char>) -> nat {
    match parse_prefix(s) {
        Some((_, n)) => n,
        None => 0,
    }
}

/// Parses `s` as a Windows path.
pub open spec fn parse_path(s: Seq<char>) -> PathModel {
    let n = prefix_len(s);
    let kind = match parse_prefix(s) {
        Some((k, _)) => Some(k),
        None => None,
    };
    let verbatim = kind matches Some(k) && k.is_verbatim();
    let after = s.skip(n as int);
    let root = after.len() > 0 && is_sep(after[0]);
    let body = if root {
        after.skip(1)
    } else {
        after
    };
    PathModel { prefix: s.take(n as int), kind, physical_root: root, comps: body_comps(body, verbatim) }
}

impl PathModel {
    /// The path is rooted: a separator follows the prefix, or the prefix
    /// implies one.
    pub open spec fn has_root(self) -> bool {
        self.physical_root || (self.kind matches Some(k) && k.has_implicit_root())
    }

    /// A root component is present when walking the components: a physical
    /// root, or the implied root of a non-verbatim prefix.
    pub open spec fn root_dir(self) -> bool {
        self.physical_root || (self.kind matches Some(k) && k.has_implicit_root()
            && !k.is_verbatim())
    }

    /// Absolute: both a prefix and a root.
    pub open spec fn is_absolute(self) -> bool {
        self.kind is Some && self.has_root()
    }

    /// `other` resolved against `self`: a destination with a prefix stands
    /// alone, a rooted one keeps only this path's prefix, and a relative one
    /// continues this path.
    pub open spec fn join(self, other: PathModel) -> PathModel {
        if other.kind is Some {
            other
        } else if other.physical_root {
            PathModel { prefix: self.prefix, kind: self.kind, physical_root: true, comps: other.comps }
        } else {
            PathModel {
                prefix: self.prefix,
                kind: self.kind,
                physical_root: self.physical_root,
                comps: self.comps + other.comps,
            }
        }
    }
}

/// What is left after walking the components of a path: the names, and the
/// drive a name restarted the path at, if any.
pub struct Walk {
    pub drive: Option<Seq<char>>,
    pub names: Seq<Seq<char>>,
}

/// Walks `comps`: `.` vanishes, `..` removes the name before it (or nothing,
/// at the top), and a name that itself starts with a drive (`C:` or
/// `C:name`) replaces everything before it, as a path with a prefix of its
/// own does when it is appended.
pub open spec fn walk(comps: Seq<Comp>) -> Walk
    decreases comps.len(),
{
    if comps.len() == 0 {
        Walk { drive: None, names: Seq::empty() }
    } else {
        let prev = walk(comps.drop_last());
        match comps.last() {
            Comp::Cur => prev,
            Comp::Parent => Walk {
                drive: prev.drive,
                names: if prev.names.len() > 0 {
                    prev.names.drop_last()
                } else {
                    prev.names
                },
            },
            Comp::Normal(n) => if starts_with_drive(n) {
                Walk {
                    drive: Some(n.take(2)),
                    names: if n.len() > 2 {
                        seq![n.skip(2)]
                    } else {
                        Seq::empty()
                    },
                }
            } else {
                Walk { drive: prev.drive, names: prev.names.push(n) }
            },
        }
    }
}

/// The names left after walking `comps`.
pub open spec fn normal_names(comps: Seq<Comp>) -> Seq<Seq<char>> {
    walk(comps).names
}

/// `names` joined with `\`.
pub open spec fn join_names(names: Seq<Seq<char>>) -> Seq<char>
    decreases names.len(),
{
    if names.len() == 0 {
        Seq::empty()
    } else if names.len() == 1 {
        names[0]
    } else {
        join_names(names.drop_last()) + seq!['\\'] + names.last()
    }
}

/// The text of a path made of a prefix, an optional root and names.
pub open spec fn render(prefix: Seq<char>, root: bool, names: Seq<Seq<char>>) -> Seq<char> {
    prefix + (if root {
        seq!['\\']
    } else {
        Seq::empty()
    }) + join_names(names)
}

/// The text a component is written as.
pub open spec fn comp_text(c: Comp) -> Seq<char> {
    match c {
        Comp::Cur => seq!['.'],
        Comp::Parent => seq!['.', '.'],
        Comp::Normal(n) => n,
    }
}

impl PathModel {
    /// Whether the normalised text has a root after the prefix: the path's
    /// own, or the separator that continuing a bare verbatim prefix with
    /// names puts after it.
    pub open spec fn root_after_walk(self, names: Seq<Seq<char>>) -> bool {
        self.root_dir() || (self.kind matches Some(k) && k.is_verbatim() && names.len() > 0)
    }

    /// The path with `.` and `..` resolved lexically.
    pub open spec fn normalized(self) -> Seq<char> {
        let w = walk(self.comps);
        match w.drive {
            Some(d) => render(d, false, w.names),
            None => render(self.prefix, self.root_after_walk(w.names), w.names),
        }
    }

    /// The path without its last component; `None` when only a prefix or a
    /// root is left.
    pub open spec fn parent(self) -> Option<Seq<char>> {
        if self.comps.len() == 0 {
            None
        } else {
            Some(
                render(
                    self.prefix,
                    self.root_dir(),
                    self.comps.drop_last().map_values(|c: Comp| comp_text(c)),
                ),
            )
        }
    }

    /// The last component when it is a name.
    pub open spec fn file_name(self) -> Option<Seq<char>> {
        if self.comps.len() > 0 && self.comps.last() is Normal {
            Some(self.comps.last()->Normal_0)
        } else {
            None
        }
    }
}

/// A name that is neither empty, `.` nor `..`.
pub open spec fn is_plain_name(n: Seq<char>) -> bool {
    n.len() > 0 && !(n =~= seq!['.']) && !(n =~= seq!['.', '.'])
}

/// Every name among `cs` is plain.
pub open spec fn comps_plain(cs: Seq<Comp>) -> bool {
    forall|i: int| 0 <= i < cs.len() ==> (#[trigger] cs[i] matches Comp::Normal(n) ==> is_plain_name(n))
}

proof fn lemma_body_comps_plain(s: Seq<char>, verbatim: bool)
    ensures
        comps_plain(body_comps(s, verbatim)),
    decreases s.len(),
{
    lemma_first_index(s, sep_pred(verbatim));
    let n = component_len(s, verbatim);
    let head = match classify(s.take(n as int), verbatim) {
        Some(c) => seq![c],
        None => Seq::<Comp>::empty(),
    };
    assert(comps_plain(head));
    if n < s.len() {
        lemma_body_comps_plain(s.skip(n + 1int), verbatim);
        let rest = body_comps(s.skip(n + 1int), verbatim);
        assert forall|i: int| 0 <= i < (head + rest).len() implies (#[trigger] (head + rest)[i] matches Comp::Normal(
            m,
        ) ==> is_plain_name(m)) by {
            if i >= head.len() {
                assert((head + rest)[i] == rest[i - head.len()]);
            }
        }
    }
}

/// Parsing yields plain names only: `.` and `..` become components of their
/// own, and empty pieces vanish.
pub proof fn lemma_parse_plain(s: Seq<char>)
    ensures
        comps_plain(parse_path(s).comps),
{
    let n = prefix_len(s);
    let kind = match parse_prefix(s) {
        Some((k, _)) => Some(k),
        None => None,
    };
    let verbatim = kind matches Some(k) && k.is_verbatim();
    let after = s.skip(n as int);
    let root = after.len() > 0 && is_sep(after[0]);
    let body = if root {
        after.skip(1)
    } else {
        after
    };
    lemma_body_comps_plain(body, verbatim);
}

/// Joining keeps names plain.
pub proof fn lemma_join_plain(a: PathModel, b: PathModel)
    requires
        comps_plain(a.comps),
        comps_plain(b.comps),
    ensures
        comps_plain(a.join(b).comps),
{
    if b.kind is None && !b.physical_root {
        let cs = a.comps + b.comps;
        assert forall|i: int| 0 <= i < cs.len() implies (#[trigger] cs[i] matches Comp::Normal(m)
            ==> is_plain_name(m)) by {
            if i >= a.comps.len() {
                assert(cs[i] == b.comps[i - a.comps.len()]);
            } else {
                assert(cs[i] == a.comps[i]);
            }
        }
    }
}

/// No name among `cs` starts with a drive.
pub open spec fn no_drive_names(cs: Seq<Comp>) -> bool {
    forall|i: int| 0 <= i < cs.len() ==> (#[trigger] cs[i] matches Comp::Normal(n) ==> !starts_with_drive(n))
}

/// Resolving `.` and `..` in plain names without drives leaves only plain
/// names, and restarts at no drive.
pub proof fn lemma_normal_names_plain(cs: Seq<Comp>)
    requires
        comps_plain(cs),
        no_drive_names(cs),
    ensures
        walk(cs).drive is None,
        forall|i: int| 0 <= i < normal_names(cs).len() ==> is_plain_name(#[trigger] normal_names(cs)[i]),
    decreases cs.len(),
{
    if cs.len() > 0 {
        let init = cs.drop_last();
        assert(comps_plain(init) && no_drive_names(init)) by {
            assert forall|i: int| 0 <= i < init.len() implies (#[trigger] init[i] matches Comp::Normal(
                m,
            ) ==> is_plain_name(m) && !starts_with_drive(m)) by {
                assert(init[i] == cs[i]);
            }
        }
        lemma_normal_names_plain(init);
        let prev = normal_names(init);
        let last = cs[cs.len() - 1];
        assert(last == cs.last());
        let out = normal_names(cs);
        assert forall|i: int| 0 <= i < out.len() implies is_plain_name(#[trigger] out[i]) by {
            match last {
                Comp::Cur => {
                    assert(out[i] == prev[i]);
                },
                Comp::Parent => {
                    assert(out[i] == prev[i]);
                },
                Comp::Normal(n) => {
                    if i < prev.len() {
                        assert(out[i] == prev[i]);
                    } else {
                        assert(out[i] == n);
                    }
                },
            }
        }
    }
}

/// A component of a parsed path, as held at run time.
#[derive(Debug)]
pub enum PathComp {
    Cur,
    Parent,
    Normal(Vec<char>),
}

impl View for PathComp {
    type V = Comp;

    open spec fn view(&self) -> Comp {
        match self {
            PathComp::Cur => Comp::Cur,
            PathComp::Parent => Comp::Parent,
            PathComp::Normal(n) => Comp::Normal(n@),
        }
    }
}

/// A parsed path, as held at run time.
#[derive(Debug)]
pub struct ParsedPath {
    pub prefix: Vec<char>,
    pub kind: Option<PrefixKind>,
    pub physical_root: bool,
    pub comps: Vec<PathComp>,
}

/// The views of a vector of components.
pub open spec fn comps_view(v: Seq<PathComp>) -> Seq<Comp> {
    v.map_values(|c: PathComp| c@)
}

impl View for ParsedPath {
    type V = PathModel;

    open spec fn view(&self) -> PathModel {
        PathModel {
            prefix: self.prefix@,
            kind: self.kind,
            physical_root: self.physical_root,
            comps: comps_view(self.comps@),
        }
    }
}

/// `c` separates components (exec form of [`is_sep_for`]).
fn sep_char(c: char, verbatim: bool) -> (r: bool)
    ensures
        r == is_sep_for(c, verbatim),
{
    c == '\\' || (!verbatim && c == '/')
}

/// Length of the component of `s` that starts at `start`.
fn component_len_at(s: &Vec<char>, start: usize, verbatim: bool) -> (n: usize)
    requires
        start <= s@.len(),
    ensures
        n == component_len(s@.skip(start as int), verbatim),
        start + n <= s@.len(),
{
    let mut i = start;
    while i < s.len() && !sep_char(s[i], verbatim)
        invariant
            start <= i <= s@.len(),
            forall|j: int| start <= j < i ==> !is_sep_for(#[trigger] s@[j], verbatim),
        decreases s@.len() - i,
    {
        i += 1;
    }
    let ghost t = s@.skip(start as int);
    proof {
        assert forall|j: int| 0 <= j < i - start implies !(#[trigger] sep_pred(verbatim)(t[j])) by {
            assert(t[j] == s@[start + j]);
        }
        if i < s.len() {
            assert(t[i - start] == s@[i as int]);
        }
        lemma_first_index_unique(t, sep_pred(verbatim), i - start);
    }
    i - start
}

/// `s[i]` is an ASCII letter and `s[i + 1]` a colon.
fn drive_at(s: &Vec<char>, i: usize) -> (r: bool)
    requires
        i <= s@.len(),
    ensures
        r == starts_with_drive(s@.skip(i as int)),
{
    if s.len() - i >= 2 {
        let c = s[i];
        (('a' <= c && c <= 'z') || ('A' <= c && c <= 'Z')) && s[i + 1] == ':'
    } else {
        false
    }
}

/// Exec form of [`parse_prefix`].
fn prefix_of(s: &Vec<char>) -> (r: Option<(PrefixKind, usize)>)
    ensures
        r is None <==> parse_prefix(s@) is None,
        r matches Some((k, n)) ==> parse_prefix(s@) == Some((k, n as nat)) && n <= s@.len(),
{
    let len = s.len();
    if len >= 2 && sep_char(s[0], false) && sep_char(s[1], false) {
        if len >= 4 && s[0] == '\\' && s[1] == '\\' && s[2] == '?' && s[3] == '\\' {
            let ghost r = s@.skip(4);
            if len >= 8 && s[4] == 'U' && s[5] == 'N' && s[6] == 'C' && s[7] == '\\' {
                let ghost t = r.skip(4);
                assert(t =~= s@.skip(8));
                let server = component_len_at(s, 8, true);
                let share = if 8 + server < len {
                    assert(after_component(t, true) =~= s@.skip(8 + server + 1));
                    component_len_at(s, 8 + server + 1, true)
                } else {
                    assert(after_component(t, true) =~= s@.skip(len as int));
                    0
                };
                if share > 0 {
                    Some((PrefixKind::VerbatimUnc, 8 + server + 1 + share))
                } else {
                    Some((PrefixKind::VerbatimUnc, 8 + server))
                }
            } else if drive_at(s, 4) && (len == 6 || s[6] == '\\') {
                assert(r =~= s@.skip(4));
                Some((PrefixKind::VerbatimDisk, 6))
            } else {
                assert(r =~= s@.skip(4));
                let n = component_len_at(s, 4, true);
                Some((PrefixKind::Verbatim, 4 + n))
            }
        } else if len >= 4 && s[2] == '.' && sep_char(s[3], false) {
            let n = component_len_at(s, 4, false);
            Some((PrefixKind::DeviceNs, 4 + n))
        } else {
            let ghost t = s@.skip(2);
            let server = component_len_at(s, 2, false);
            let share = if 2 + server < len {
                assert(after_component(t, false) =~= s@.skip(2 + server + 1));
                component_len_at(s, 2 + server + 1, false)
            } else {
                assert(after_component(t, false) =~= s@.skip(len as int));
                0
            };
            if server > 0 && share > 0 {
                Some((PrefixKind::Unc, 3 + server + share))
            } else {
                None
            }
        }
    } else if drive_at(s, 0) {
        assert(s@.skip(0) =~= s@);
        Some((PrefixKind::Disk, 2))
    } else {
        assert(s@.skip(0) =~= s@);
        None
    }
}

/// The characters `s[start..end]` as a vector.
fn chars_range(s: &Vec<char>, start: usize, end: usize) -> (v: Vec<char>)
    requires
        start <= end <= s@.len(),
    ensures
        v@ == s@.subrange(start as int, end as int),
{
    let mut v: Vec<char> = Vec::new();
    let mut i = start;
    while i < end
        invariant
            start <= i <= end <= s@.len(),
            v@ == s@.subrange(start as int, i as int),
        decreases end - i,
    {
        v.push(s[i]);
        assert(s@.subrange(start as int, i + 1) =~= s@.subrange(start as int, i as int).push(s@[i as int]));
        i += 1;
    }
    v
}

/// Exec form of [`classify`] for the piece `s[start..start + n]`.
fn classify_at(s: &Vec<char>, start: usize, n: usize, verbatim: bool) -> (r: Option<PathComp>)
    requires
        start + n <= s@.len(),
    ensures
        (match r {
            Some(c) => Some(c@),
            None => None,
        }) == classify(s@.skip(start as int).take(n as int), verbatim),
{
    let _len = s.len();
    let ghost piece = s@.skip(start as int).take(n as int);
    assert(piece =~= s@.subrange(start as int, start + n));
    if n == 0 {
        None
    } else if n == 1 && s[start] == '.' {
        assert(piece =~= seq!['.']);
        if verbatim {
            Some(PathComp::Cur)
        } else {
            None
        }
    } else if n == 2 && s[start] == '.' && s[start + 1] == '.' {
        assert(piece =~= seq!['.', '.']);
        Some(PathComp::Parent)
    } else {
        assert(!(piece =~= seq!['.'])) by {
            if n == 1 {
                assert(piece[0] == s@[start as int]);
            }
        }
        assert(!(piece =~= seq!['.', '.'])) by {
            if n == 2 {
                assert(piece[0] == s@[start as int]);
                assert(piece[1] == s@[start + 1]);
            }
        }
        Some(PathComp::Normal(chars_range(s, start, start + n)))
    }
}

/// Exec form of [`body_comps`] for the body `s[start..]`.
fn body_comps_at(s: &Vec<char>, start: usize, verbatim: bool) -> (out: Vec<PathComp>)
    requires
        start <= s@.len(),
    ensures
        comps_view(out@) == body_comps(s@.skip(start as int), verbatim),
{
    let mut out: Vec<PathComp> = Vec::new();
    let mut i = start;
    let len = s.len();
    loop
        invariant_except_break
            start <= i <= len,
            len == s@.len(),
            body_comps(s@.skip(start as int), verbatim) == comps_view(out@) + body_comps(
                s@.skip(i as int),
                verbatim,
            ),
        ensures
            comps_view(out@) == body_comps(s@.skip(start as int), verbatim),
        decreases len - i,
    {
        let ghost before = out@;
        let n = component_len_at(s, i, verbatim);
        let c = classify_at(s, i, n, verbatim);
        let ghost t = s@.skip(i as int);
        let ghost head = match classify(t.take(n as int), verbatim) {
            Some(c) => seq![c],
            None => Seq::<Comp>::empty(),
        };
        match c {
            Some(c) => {
                out.push(c);
            },
            None => {},
        }
        assert(comps_view(out@) =~= comps_view(before) + head);
        if i + n < len {
            assert(t.skip(n + 1int) =~= s@.skip(i + n + 1));
            assert(body_comps(t, verbatim) == head + body_comps(t.skip(n + 1int), verbatim));
            assert(comps_view(before) + (head + body_comps(t.skip(n + 1int), verbatim)) =~= comps_view(out@)
                + body_comps(t.skip(n + 1int), verbatim));
            i = i + n + 1;
        } else {
            assert(body_comps(t, verbatim) == head);
            assert(comps_view(before) + head =~= comps_view(out@));
            break;
        }
    }
    out
}

/// The views of a vector of character vectors.
pub open spec fn names_view(v: Seq<Vec<char>>) -> Seq<Seq<char>> {
    v.map_values(|x: Vec<char>| x@)
}

/// A copy of `v`.
fn copy_chars(v: &Vec<char>) -> (r: Vec<char>)
    ensures
        r@ == v@,
{
    let r = chars_range(v, 0, v.len());
    assert(v@.subrange(0, v@.len() as int) =~= v@);
    r
}

/// Parses a path (exec form of [`parse_path`]).
pub fn parse(s: &Vec<char>) -> (p: ParsedPath)
    ensures
        p@ == parse_path(s@),
{
    let pre = prefix_of(s);
    let (kind, n) = match pre {
        Some((k, n)) => (Some(k), n),
        None => (None, 0),
    };
    let verbatim = match kind {
        Some(k) => match k {
            PrefixKind::Verbatim | PrefixKind::VerbatimUnc | PrefixKind::VerbatimDisk => true,
            _ => false,
        },
        None => false,
    };
    let root = n < s.len() && sep_char(s[n], false);
    let body_start = if root {
        n + 1
    } else {
        n
    };
    let ghost after = s@.skip(n as int);
    proof {
        if root {
            assert(after.skip(1) =~= s@.skip(body_start as int));
        } else {
            assert(after =~= s@.skip(body_start as int));
        }
    }
    let comps = body_comps_at(s, body_start, verbatim);
    let prefix = chars_range(s, 0, n);
    assert(prefix@ =~= s@.take(n as int));
    ParsedPath { prefix, kind, physical_root: root, comps }
}

impl ParsedPath {
    /// Exec form of [`PathModel::root_dir`].
    pub fn root_dir(&self) -> (r: bool)
        ensures
            r == self@.root_dir(),
    {
        self.physical_root || match self.kind {
            Some(PrefixKind::Disk) => false,
            Some(PrefixKind::Verbatim) => false,
            Some(PrefixKind::VerbatimUnc) => false,
            Some(PrefixKind::VerbatimDisk) => false,
            Some(_) => true,
            None => false,
        }
    }

    /// Exec form of [`PathModel::is_absolute`].
    pub fn is_absolute(&self) -> (r: bool)
        ensures
            r == self@.is_absolute(),
    {
        match self.kind {
            Some(PrefixKind::Disk) => self.physical_root,
            Some(_) => true,
            None => false,
        }
    }

    /// Exec form of [`PathModel::join`].
    pub fn join(self, other: ParsedPath) -> (r: ParsedPath)
        ensures
            r@ == self@.join(other@),
    {
        if other.kind.is_some() {
            other
        } else if other.physical_root {
            ParsedPath { prefix: self.prefix, kind: self.kind, physical_root: true, comps: other.comps }
        } else {
            let ghost a = self.comps@;
            let ghost b = other.comps@;
            let mut comps = self.comps;
            let mut rest = other.comps;
            comps.append(&mut rest);
            assert(comps_view(comps@) =~= comps_view(a) + comps_view(b));
            ParsedPath { prefix: self.prefix, kind: self.kind, physical_root: self.physical_root, comps }
        }
    }

    /// The drive a name restarted the path at, if any, and the names left
    /// after resolving `.` and `..` (exec form of [`walk`]).
    pub fn walk(&self) -> (r: (Option<Vec<char>>, Vec<Vec<char>>))
        ensures
            names_view(r.1@) == walk(self@.comps).names,
            match r.0 {
                Some(d) => walk(self@.comps).drive == Some(d@),
                None => walk(self@.comps).drive is None,
            },
    {
        let ghost cs = comps_view(self.comps@);
        let mut drive: Option<Vec<char>> = None;
        let mut names: Vec<Vec<char>> = Vec::new();
        let mut i: usize = 0;
        while i < self.comps.len()
            invariant
                i <= self.comps@.len(),
                cs == comps_view(self.comps@),
                names_view(names@) == walk(cs.take(i as int)).names,
                match drive {
                    Some(d) => walk(cs.take(i as int)).drive == Some(d@),
                    None => walk(cs.take(i as int)).drive is None,
                },
            decreases self.comps@.len() - i,
        {
            let ghost prev = names@;
            assert(cs.take(i + 1).drop_last() =~= cs.take(i as int));
            assert(cs.take(i + 1).last() == self.comps@[i as int]@);
            match &self.comps[i] {
                PathComp::Cur => {},
                PathComp::Parent => {
                    if names.len() > 0 {
                        names.pop();
                        assert(names_view(names@) =~= names_view(prev).drop_last());
                    }
                },
                PathComp::Normal(n) => {
                    let len = n.len();
                    if len >= 2 && (('a' <= n[0] && n[0] <= 'z') || ('A' <= n[0] && n[0] <= 'Z'))
                        && n[1] == ':' {
                        drive = Some(chars_range(n, 0, 2));
                        names = Vec::new();
                        assert(n@.subrange(0, 2) =~= n@.take(2));
                        if len > 2 {
                            names.push(chars_range(n, 2, len));
                            assert(n@.subrange(2, len as int) =~= n@.skip(2));
                            assert(names_view(names@) =~= seq![n@.skip(2)]);
                        } else {
                            assert(names_view(names@) =~= Seq::<Seq<char>>::empty());
                        }
                    } else {
                        names.push(copy_chars(n));
                        assert(names_view(names@) =~= names_view(prev).push(n@));
                    }
                },
            }
            i += 1;
        }
        assert(cs.take(self.comps@.len() as int) =~= cs);
        (drive, names)
    }

    /// The text of the path with `.` and `..` resolved (exec form of
    /// [`PathModel::normalized`]).
    pub fn normalized(&self) -> (s: String)
        ensures
            s@ == self@.normalized(),
    {
        let (drive, names) = self.walk();
        match drive {
            Some(d) => render_string(&d, false, &names),
            None => {
                let verbatim = match self.kind {
                    Some(PrefixKind::Verbatim) | Some(PrefixKind::VerbatimUnc) | Some(
                        PrefixKind::VerbatimDisk,
                    ) => true,
                    _ => false,
                };
                let root = self.root_dir() || (verbatim && names.len() > 0);
                render_string(&self.prefix, root, &names)
            },
        }
    }

    /// Exec form of [`PathModel::parent`].
    pub fn parent(&self) -> (r: Option<String>)
        ensures
            r.deep_view() == self@.parent(),
    {
        let n = self.comps.len();
        if n == 0 {
            None
        } else {
            let ghost cs = comps_view(self.comps@);
            let mut texts: Vec<Vec<char>> = Vec::new();
            let mut i: usize = 0;
            while i < n - 1
                invariant
                    i <= n - 1,
                    n == self.comps@.len(),
                    cs == comps_view(self.comps@),
                    names_view(texts@) == cs.take(i as int).map_values(|c: Comp| comp_text(c)),
                decreases n - 1 - i,
            {
                let t = match &self.comps[i] {
                    PathComp::Cur => vec!['.'],
                    PathComp::Parent => vec!['.', '.'],
                    PathComp::Normal(x) => copy_chars(x),
                };
                assert(t@ == comp_text(cs[i as int]));
                let ghost prev = texts@;
                texts.push(t);
                assert(names_view(texts@) =~= names_view(prev).push(t@));
                assert(cs.take(i + 1).map_values(|c: Comp| comp_text(c)) =~= cs.take(i as int).map_values(
                    |c: Comp| comp_text(c),
                ).push(comp_text(cs[i as int])));
                i += 1;
            }
            assert(cs.take(n - 1) =~= cs.drop_last());
            Some(render_string(&self.prefix, self.root_dir(), &texts))
        }
    }

    /// Exec form of [`PathModel::file_name`].
    pub fn file_name(&self) -> (r: Option<Vec<char>>)
        ensures
            match r {
                Some(v) => self@.file_name() == Some(v@),
                None => self@.file_name() is None,
            },
    {
        let n = self.comps.len();
        if n == 0 {
            None
        } else {
            match &self.comps[n - 1] {
                PathComp::Normal(x) => Some(copy_chars(x)),
                _ => None,
            }
        }
    }
}

/// The directory a path lies in: the path without its last component, or
/// `None` when only a prefix or a root is left.
pub fn parent_of(path: &str) -> (r: Option<String>)
    ensures
        r.deep_view() == parse_path(path@).parent(),
{
    parse(&chars_of(path)).parent()
}

/// The last component of a path when it is a name.
pub fn file_name_of(path: &str) -> (r: Option<String>)
    ensures
        r.deep_view() == parse_path(path@).file_name(),
{
    match parse(&chars_of(path)).file_name() {
        Some(v) => Some(string_from_chars(&v)),
        None => None,
    }
}

/// Exec form of [`render`].
pub fn render_string(prefix: &Vec<char>, root: bool, names: &Vec<Vec<char>>) -> (s: String)
    ensures
        s@ == render(prefix@, root, names_view(names@)),
{
    let mut s = String::new();
    push_chars(&mut s, prefix);
    if root {
        push_char(&mut s, '\\');
    }
    let ghost head = s@;
    assert(head =~= prefix@ + (if root {
        seq!['\\']
    } else {
        Seq::empty()
    }));
    let ghost nv = names_view(names@);
    let mut i: usize = 0;
    while i < names.len()
        invariant
            i <= names@.len(),
            nv == names_view(names@),
            s@ == head + join_names(nv.take(i as int)),
        decreases names@.len() - i,
    {
        assert(nv.take(i + 1).drop_last() =~= nv.take(i as int));
        assert(nv.take(i + 1).last() == names@[i as int]@);
        if i > 0 {
            push_char(&mut s, '\\');
        } else {
            assert(join_names(nv.take(0)) =~= Seq::<char>::empty());
        }
        push_chars(&mut s, &names[i]);
        assert(s@ =~= head + join_names(nv.take(i + 1)));
        i += 1;
    }
    assert(nv.take(names@.len() as int) =~= nv);
    s
}

} // verus!
