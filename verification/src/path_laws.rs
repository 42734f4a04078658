//! What the file name and the parent of a path are, stated on the text of
//! the path.

use vstd::prelude::*;
use crate::normal_form::{lemma_body_comps_name, lemma_body_comps_split, lemma_prefix_len};
use crate::winpath::{
    body_comps, comp_text, is_plain_name, is_sep, join_names, parse_path, parse_prefix, prefix_len,
    render, Comp,
};

verus! {

/// A name followed by nothing else, after a separator, is the file name of
/// the path: the file name of `C:\work\docs\notes.md` is `notes.md`, and
/// that of `C:\work\docs\meeting-notes.md` is `meeting-notes.md`, whatever
/// the directory before it (one that does not start with a separator).
pub proof fn lemma_file_name_of_child(d: Seq<char>, f: Seq<char>)
    requires
        d.len() == 0 || !is_sep(d[0]),
        is_plain_name(f),
        forall|i: int| 0 <= i < f.len() ==> !is_sep(#[trigger] f[i]),
    ensures
        parse_path(d + seq!['\\'] + f).file_name() == Some(f),
        parse_path(d + seq!['\\'] + f).comps.len() >= 1,
{
    let p = d + seq!['\\'] + f;
    assert forall|i: int| 0 <= i < d.len() implies p[i] == d[i] by {}
    assert(p[d.len() as int] == '\\');
    if d.len() >= 2 {
        assert(p[0] == d[0] && p[1] == d[1]);
    } else if d.len() == 1 {
        assert(p[0] == d[0] && p[1] == '\\');
    } else {
        assert(p[0] == '\\');
        assert(p[1] == f[0]);
    }
    assert(parse_prefix(p) == parse_prefix(d));
    lemma_prefix_len(d);
    let n = prefix_len(d);
    assert(n == 0 || n == 2);
    assert(prefix_len(p) == n);
    let ad = d.skip(n as int);
    let ap = p.skip(n as int);
    assert(ap =~= ad + seq!['\\'] + f);
    assert(crate::normal_form::sep_free(f, false)) by {
        assert forall|i: int| 0 <= i < f.len() implies !crate::winpath::is_sep_for(#[trigger] f[i], false) by {
            assert(!is_sep(f[i]));
        }
    }
    lemma_body_comps_name(f, false);
    let m = parse_path(p);
    assert(!(m.kind matches Some(k) && k.is_verbatim()));
    if ad.len() == 0 {
        assert(ap =~= seq!['\\'] + f);
        assert(ap.skip(1) =~= f);
        assert(m.comps == seq![Comp::Normal(f)]);
    } else {
        assert(ap[0] == ad[0]);
        let bd = if is_sep(ad[0]) {
            ad.skip(1)
        } else {
            ad
        };
        if is_sep(ad[0]) {
            assert(ap.skip(1) =~= bd + seq!['\\'] + f);
        }
        lemma_body_comps_split(bd, '\\', f, false);
        assert(m.comps == body_comps(bd, false) + seq![Comp::Normal(f)]);
    }
    assert(m.comps.last() == Comp::Normal(f));
}

/// A path with at least one component has a parent, the path without its
/// last component; in particular a path with a single name has its prefix
/// and root as parent: the parent of `\\?\D:\notes.md` is `\\?\D:\`, and that
/// of `D:\notes.md` is `D:\`.
pub proof fn lemma_parent_of_named_path(p: Seq<char>)
    ensures
        parse_path(p).comps.len() >= 1 ==> parse_path(p).parent() == Some(
            render(
                parse_path(p).prefix,
                parse_path(p).root_dir(),
                parse_path(p).comps.drop_last().map_values(|c: Comp| comp_text(c)),
            ),
        ),
        parse_path(p).comps.len() == 1 ==> parse_path(p).parent() == Some(
            parse_path(p).prefix + if parse_path(p).root_dir() {
                seq!['\\']
            } else {
                Seq::<char>::empty()
            },
        ),
{
    let m = parse_path(p);
    if m.comps.len() == 1 {
        let texts = m.comps.drop_last().map_values(|c: Comp| comp_text(c));
        assert(texts =~= Seq::<Seq<char>>::empty());
        assert(join_names(texts) =~= Seq::<char>::empty());
        let r = if m.root_dir() {
            seq!['\\']
        } else {
            Seq::<char>::empty()
        };
        assert(render(m.prefix, m.root_dir(), texts) =~= m.prefix + r);
    }
}

/// An absolute path starts with a prefix of at least two characters, which
/// its parent keeps: the parent of an absolute path is on the same drive or
/// share, and is never empty.
pub proof fn lemma_parent_keeps_the_prefix(p: Seq<char>)
    requires
        parse_path(p).is_absolute(),
        parse_path(p).comps.len() >= 1,
    ensures
        parse_path(p).prefix.len() >= 2,
        parse_path(p).parent() matches Some(t) && t.len() >= 2 && t.take(
            parse_path(p).prefix.len() as int,
        ) == parse_path(p).prefix,
{
    lemma_prefix_len(p);
    let m = parse_path(p);
    assert(prefix_len(p) >= 2);
    assert(m.prefix.len() == prefix_len(p));
    lemma_parent_of_named_path(p);
    let t = m.parent()->0;
    let texts = m.comps.drop_last().map_values(|c: Comp| comp_text(c));
    let r = if m.root_dir() {
        seq!['\\']
    } else {
        Seq::<char>::empty()
    };
    assert(t == m.prefix + r + join_names(texts));
    assert(t.take(m.prefix.len() as int) =~= m.prefix);
}

} // verus!
