//! Normalised paths are in normal form: reading the text of a normalised
//! path back and normalising it again gives the same text.

use vstd::prelude::*;
use crate::text::{first_index, lemma_first_index, lemma_first_index_unique};
use crate::winpath::{
    after_component, body_comps, classify, component_len, is_plain_name, is_sep, is_sep_for,
    join_names, no_drive_names, parse_path, parse_prefix, prefix_len, render, sep_pred,
    starts_with_drive, walk, Comp, PrefixKind, Walk,
};

verus! {

/// No character of `n` separates components.
pub open spec fn sep_free(n: Seq<char>, verbatim: bool) -> bool {
    forall|i: int| 0 <= i < n.len() ==> !is_sep_for(#[trigger] n[i], verbatim)
}

/// A name as it stands in a normalised path: plain, free of separators and
/// not starting with a drive.
pub open spec fn is_normal_name(n: Seq<char>, verbatim: bool) -> bool {
    is_plain_name(n) && sep_free(n, verbatim) && !starts_with_drive(n)
}

/// The components that `names` stand for.
pub open spec fn name_comps(names: Seq<Seq<char>>) -> Seq<Comp> {
    names.map_values(|n: Seq<char>| Comp::Normal(n))
}

/// Where a predicate first holds in `a + b`.
proof fn lemma_first_index_concat(a: Seq<char>, b: Seq<char>, p: spec_fn(char) -> bool)
    ensures
        first_index(a + b, p) == if first_index(a, p) < a.len() {
            first_index(a, p)
        } else {
            a.len() + first_index(b, p)
        },
    decreases a.len(),
{
    if a.len() == 0 {
        assert(a + b =~= b);
    } else if !p(a[0]) {
        assert((a + b).drop_first() =~= a.drop_first() + b);
        lemma_first_index_concat(a.drop_first(), b, p);
    }
}

/// Splitting at a separator splits the components.
pub proof fn lemma_body_comps_split(a: Seq<char>, c: char, b: Seq<char>, verbatim: bool)
    requires
        is_sep_for(c, verbatim),
    ensures
        body_comps(a + seq![c] + b, verbatim) == body_comps(a, verbatim) + body_comps(b, verbatim),
    decreases a.len(),
{
    let s = a + seq![c] + b;
    let p = sep_pred(verbatim);
    lemma_first_index(a, p);
    lemma_first_index_concat(a, seq![c] + b, p);
    assert(s =~= a + (seq![c] + b));
    lemma_first_index_concat(seq![c], b, p);
    assert(p(c));
    let n = component_len(a, verbatim);
    assert(component_len(s, verbatim) == n);
    assert(s.take(n as int) =~= a.take(n as int));
    if n < a.len() {
        assert(s.skip(n + 1int) =~= a.skip(n + 1int) + seq![c] + b);
        lemma_body_comps_split(a.skip(n + 1int), c, b, verbatim);
        assert(body_comps(s, verbatim) =~= body_comps(a, verbatim) + body_comps(b, verbatim));
    } else {
        assert(s.skip(n + 1int) =~= b);
        assert(body_comps(s, verbatim) =~= body_comps(a, verbatim) + body_comps(b, verbatim));
    }
}

/// A single normal name is a single component.
pub proof fn lemma_body_comps_name(n: Seq<char>, verbatim: bool)
    requires
        is_plain_name(n),
        sep_free(n, verbatim),
    ensures
        body_comps(n, verbatim) == seq![Comp::Normal(n)],
{
    lemma_first_index_unique(n, sep_pred(verbatim), n.len() as int);
    assert(n.take(n.len() as int) =~= n);
    assert(classify(n, verbatim) == Some(Comp::Normal(n)));
}

/// Names joined with `\` split back into the same names.
pub proof fn lemma_body_comps_join(names: Seq<Seq<char>>, verbatim: bool)
    requires
        forall|i: int| 0 <= i < names.len() ==> is_normal_name(#[trigger] names[i], verbatim),
    ensures
        body_comps(join_names(names), verbatim) == name_comps(names),
    decreases names.len(),
{
    if names.len() == 0 {
        assert(body_comps(Seq::empty(), verbatim) =~= Seq::<Comp>::empty());
        assert(name_comps(names) =~= Seq::<Comp>::empty());
    } else if names.len() == 1 {
        lemma_body_comps_name(names[0], verbatim);
        assert(name_comps(names) =~= seq![Comp::Normal(names[0])]);
    } else {
        let init = names.drop_last();
        assert forall|i: int| 0 <= i < init.len() implies is_normal_name(#[trigger] init[i], verbatim) by {
            assert(init[i] == names[i]);
        }
        lemma_body_comps_join(init, verbatim);
        lemma_body_comps_name(names.last(), verbatim);
        lemma_body_comps_split(join_names(init), '\\', names.last(), verbatim);
        assert(name_comps(names) =~= name_comps(init) + seq![Comp::Normal(names.last())]);
    }
}

/// Walking names that start with no drive keeps them all.
pub proof fn lemma_walk_names(names: Seq<Seq<char>>)
    requires
        forall|i: int| 0 <= i < names.len() ==> !starts_with_drive(#[trigger] names[i]),
    ensures
        walk(name_comps(names)) == (Walk { drive: None, names }),
    decreases names.len(),
{
    if names.len() > 0 {
        let init = names.drop_last();
        assert forall|i: int| 0 <= i < init.len() implies !starts_with_drive(#[trigger] init[i]) by {
            assert(init[i] == names[i]);
        }
        lemma_walk_names(init);
        assert(name_comps(names).drop_last() =~= name_comps(init));
        assert(name_comps(names).last() == Comp::Normal(names.last()));
        assert(!starts_with_drive(names[names.len() - 1]));
        assert(init.push(names.last()) =~= names);
        assert(walk(name_comps(names)).names =~= names);
    } else {
        assert(name_comps(names) =~= Seq::<Comp>::empty());
        assert(names =~= Seq::<Seq<char>>::empty());
    }
}

/// The components of a body are plain names free of the body's separators.
proof fn lemma_body_comps_normal(s: Seq<char>, verbatim: bool)
    ensures
        forall|i: int|
            0 <= i < body_comps(s, verbatim).len() ==> (#[trigger] body_comps(s, verbatim)[i] matches Comp::Normal(
                n,
            ) ==> is_plain_name(n) && sep_free(n, verbatim)),
    decreases s.len(),
{
    let p = sep_pred(verbatim);
    lemma_first_index(s, p);
    let n = component_len(s, verbatim);
    let piece = s.take(n as int);
    assert(sep_free(piece, verbatim)) by {
        assert forall|i: int| 0 <= i < piece.len() implies !is_sep_for(#[trigger] piece[i], verbatim) by {
            assert(piece[i] == s[i]);
            assert(!p(s[i]));
        }
    }
    let head = match classify(piece, verbatim) {
        Some(c) => seq![c],
        None => Seq::<Comp>::empty(),
    };
    let cs = body_comps(s, verbatim);
    if n < s.len() {
        lemma_body_comps_normal(s.skip(n + 1int), verbatim);
        let rest = body_comps(s.skip(n + 1int), verbatim);
        assert(cs == head + rest);
        assert forall|i: int| 0 <= i < cs.len() implies (#[trigger] cs[i] matches Comp::Normal(m)
            ==> is_plain_name(m) && sep_free(m, verbatim)) by {
            if i >= head.len() {
                assert(cs[i] == rest[i - head.len()]);
            }
        }
    }
}

/// Walking components whose names are normal keeps only normal names and
/// restarts at no drive.
proof fn lemma_walk_normal(cs: Seq<Comp>, verbatim: bool)
    requires
        forall|i: int|
            0 <= i < cs.len() ==> (#[trigger] cs[i] matches Comp::Normal(n) ==> is_normal_name(n, verbatim)),
    ensures
        walk(cs).drive is None,
        forall|i: int|
            0 <= i < walk(cs).names.len() ==> is_normal_name(#[trigger] walk(cs).names[i], verbatim),
    decreases cs.len(),
{
    if cs.len() > 0 {
        let init = cs.drop_last();
        assert forall|i: int| 0 <= i < init.len() implies (#[trigger] init[i] matches Comp::Normal(m)
            ==> is_normal_name(m, verbatim)) by {
            assert(init[i] == cs[i]);
        }
        lemma_walk_normal(init, verbatim);
        let prev = walk(init).names;
        let last = cs[cs.len() - 1];
        assert(last == cs.last());
        let out = walk(cs).names;
        assert forall|i: int| 0 <= i < out.len() implies is_normal_name(#[trigger] out[i], verbatim) by {
            match last {
                Comp::Cur => {
                    assert(out[i] == prev[i]);
                },
                Comp::Parent => {
                    assert(out[i] == prev[i]);
                },
                Comp::Normal(n) => {
                    if i < prev.len() {
                        assert(out[i] == prev[i]);
                    } else {
                        assert(out[i] == n);
                    }
                },
            }
        }
    }
}

/// Names joined with `\` are the first name, then the others joined.
pub proof fn lemma_join_names_front(names: Seq<Seq<char>>)
    requires
        names.len() >= 1,
    ensures
        join_names(names) == names[0] + if names.len() > 1 {
            seq!['\\'] + join_names(names.skip(1))
        } else {
            Seq::<char>::empty()
        },
    decreases names.len(),
{
    if names.len() == 1 {
        assert(names[0] + Seq::<char>::empty() =~= names[0]);
    } else if names.len() == 2 {
        assert(names.skip(1) =~= seq![names[1]]);
        assert(names.drop_last() =~= seq![names[0]]);
        assert(join_names(names.drop_last()) == names[0]);
        assert(join_names(names.skip(1)) == names[1]);
        assert(names.last() == names[1]);
        assert(join_names(names) =~= names[0] + (seq!['\\'] + join_names(names.skip(1))));
    } else {
        let init = names.drop_last();
        lemma_join_names_front(init);
        assert(names.skip(1).drop_last() =~= init.skip(1));
        assert(names.skip(1).last() == names.last());
        assert(init[0] == names[0]);
        assert(join_names(init) == init[0] + (seq!['\\'] + join_names(init.skip(1))));
        assert(join_names(names.skip(1)) == join_names(init.skip(1)) + seq!['\\'] + names.last());
        assert(join_names(names) =~= names[0] + (seq!['\\'] + join_names(names.skip(1))));
    }
}

/// What follows a prefix other than a bare drive is a separator, if
/// anything.
proof fn lemma_prefix_followed_by_sep(s: Seq<char>)
    ensures
        parse_prefix(s) matches Some((k, n)) ==> (k != PrefixKind::Disk && n < s.len() ==> is_sep(
            s[n as int],
        )),
{
    let pt = sep_pred(true);
    let pf = sep_pred(false);
    if s.len() >= 4 {
        lemma_first_index(s.skip(4), pt);
        lemma_first_index(s.skip(4), pf);
    }
    if s.len() >= 8 {
        let t = s.skip(8);
        lemma_first_index(t, pt);
        lemma_first_index(after_component(t, true), pt);
        assert(s.skip(4).skip(4) =~= t);
    }
    if s.len() >= 2 {
        let t = s.skip(2);
        lemma_first_index(t, pf);
        lemma_first_index(after_component(t, false), pf);
    }
    match parse_prefix(s) {
        None => {},
        Some((k, n)) => if k != PrefixKind::Disk && n < s.len() {
            match k {
                PrefixKind::DeviceNs => {
                    assert(s[n as int] == s.skip(4)[n - 4]);
                },
                PrefixKind::Unc => {
                    let t = s.skip(2);
                    let server = component_len(t, false);
                    assert(s[n as int] == after_component(t, false)[n - 3 - server]);
                },
                PrefixKind::Verbatim => {
                    assert(s[n as int] == s.skip(4)[n - 4]);
                },
                PrefixKind::VerbatimDisk => {
                    assert(s[n as int] == s.skip(4)[2]);
                },
                PrefixKind::VerbatimUnc => {
                    let t = s.skip(8);
                    let server = component_len(t, true);
                    if verbatim_unc_share(s) > 0 {
                        assert(s[n as int] == after_component(t, true)[n - 9 - server]);
                    } else {
                        assert(s[n as int] == t[server as int]);
                    }
                },
                PrefixKind::Disk => {},
            }
        },
    }
}

/// The length of the share of a `\\?\UNC\server\share` prefix (0 when there
/// is none).
pub open spec fn verbatim_unc_share(s: Seq<char>) -> nat {
    component_len(after_component(s.skip(8), true), true)
}

/// A prefix never runs past the end of the path.
pub proof fn lemma_prefix_len(s: Seq<char>)
    ensures
        parse_prefix(s) matches Some((k, n)) ==> n <= s.len(),
{
    if s.len() >= 4 {
        lemma_first_index(s.skip(4), sep_pred(true));
        lemma_first_index(s.skip(4), sep_pred(false));
    }
    if s.len() >= 8 {
        let t = s.skip(8);
        lemma_first_index(t, sep_pred(true));
        lemma_first_index(after_component(t, true), sep_pred(true));
        assert(s.skip(4).skip(4) =~= t);
    }
    if s.len() >= 2 {
        let t = s.skip(2);
        lemma_first_index(t, sep_pred(false));
        lemma_first_index(after_component(t, false), sep_pred(false));
    }
}

/// The prefix of a path reads the same from any text that repeats the
/// prefix and continues with nothing or a `\\` (for a verbatim path, with
/// nothing when the path itself ends at its prefix), unless that text would
/// lend an empty verbatim share a name.
proof fn lemma_prefix_reparse(s: Seq<char>, r: Seq<char>, k: PrefixKind, n: nat)
    requires
        parse_prefix(s) == Some((k, n)),
        k != PrefixKind::Disk,
        n <= r.len(),
        r.take(n as int) == s.take(n as int),
        r.len() > n ==> r[n as int] == '\\',
        k.is_verbatim() && s.len() == n ==> r.len() == n,
        k == PrefixKind::VerbatimUnc && r.len() > n + 1 ==> verbatim_unc_share(s) > 0,
    ensures
        parse_prefix(r) == parse_prefix(s),
{
    lemma_prefix_len(s);
    assert(n <= s.len());
    assert forall|j: int| 0 <= j < n implies r[j] == s[j] by {
        assert(r.take(n as int)[j] == r[j]);
        assert(s.take(n as int)[j] == s[j]);
    }
    let pt = sep_pred(true);
    let pf = sep_pred(false);
    match k {
        PrefixKind::DeviceNs => {
            let c = component_len(s.skip(4), false);
            lemma_first_index(s.skip(4), pf);
            assert forall|j: int| 0 <= j < c implies !pf(#[trigger] r.skip(4)[j]) by {
                assert(r.skip(4)[j] == r[4 + j]);
                assert(s.skip(4)[j] == s[4 + j]);
            }
            if r.len() > n {
                assert(r.skip(4)[c as int] == r[n as int]);
            }
            lemma_first_index_unique(r.skip(4), pf, c as int);
        },
        PrefixKind::Unc => {
            let t = s.skip(2);
            let t2 = r.skip(2);
            let server = component_len(t, false);
            let share = component_len(after_component(t, false), false);
            lemma_first_index(t, pf);
            lemma_first_index(after_component(t, false), pf);
            assert(server < t.len());
            assert forall|j: int| 0 <= j < n - 2 implies t2[j] == t[j] by {
                assert(t2[j] == r[2 + j]);
                assert(t[j] == s[2 + j]);
            }
            assert forall|j: int| 0 <= j < server implies !pf(#[trigger] t2[j]) by {
                assert(t2[j] == t[j]);
            }
            assert(t2[server as int] == t[server as int]);
            lemma_first_index_unique(t2, pf, server as int);
            let a = after_component(t, false);
            let a2 = after_component(t2, false);
            assert forall|j: int| 0 <= j < share implies !pf(#[trigger] a2[j]) by {
                assert(a2[j] == t2[server + 1 + j]);
                assert(a[j] == t[server + 1 + j]);
            }
            if a2.len() > share {
                assert(a2[share as int] == r[n as int]);
            }
            lemma_first_index_unique(a2, pf, share as int);
        },
        PrefixKind::Verbatim => {
            let sr = s.skip(4);
            let rr = r.skip(4);
            let c = component_len(sr, true);
            lemma_first_index(sr, pt);
            assert forall|j: int| 0 <= j < c implies rr[j] == sr[j] by {
                assert(rr[j] == r[4 + j]);
                assert(sr[j] == s[4 + j]);
            }
            assert forall|j: int| 0 <= j < c implies !pt(#[trigger] rr[j]) by {
                assert(rr[j] == sr[j]);
            }
            if rr.len() > c {
                assert(rr[c as int] == r[n as int]);
            }
            if sr.len() > c {
                assert(pt(sr[c as int]));
            }
            lemma_first_index_unique(rr, pt, c as int);
        },
        PrefixKind::VerbatimDisk => {
            let sr = s.skip(4);
            let rr = r.skip(4);
            assert(rr[0] == r[4] && sr[0] == s[4]);
            assert(rr[1] == r[5] && sr[1] == s[5]);
            if rr.len() > 2 {
                assert(rr[2] == r[6]);
            }
        },
        PrefixKind::VerbatimUnc => {
            let sr = s.skip(4);
            let rr = r.skip(4);
            assert(rr[0] == r[4] && rr[1] == r[5] && rr[2] == r[6] && rr[3] == r[7]);
            assert(sr[0] == s[4] && sr[1] == s[5] && sr[2] == s[6] && sr[3] == s[7]);
            let t = sr.skip(4);
            let t2 = rr.skip(4);
            assert(t =~= s.skip(8));
            assert(t2 =~= r.skip(8));
            let server = component_len(t, true);
            let share = component_len(after_component(t, true), true);
            lemma_first_index(t, pt);
            lemma_first_index(after_component(t, true), pt);
            assert forall|j: int| 0 <= j < n - 8 implies t2[j] == t[j] by {
                assert(t2[j] == r[8 + j]);
                assert(t[j] == s[8 + j]);
            }
            assert forall|j: int| 0 <= j < server implies !pt(#[trigger] t2[j]) by {
                assert(t2[j] == t[j]);
            }
            if t2.len() > server {
                if share > 0 {
                    assert(t2[server as int] == t[server as int]);
                } else {
                    assert(t2[server as int] == r[n as int]);
                }
            }
            lemma_first_index_unique(t2, pt, server as int);
            let a = after_component(t, true);
            let a2 = after_component(t2, true);
            if share > 0 {
                assert forall|j: int| 0 <= j < share implies !pt(#[trigger] a2[j]) by {
                    assert(a2[j] == t2[server + 1 + j]);
                    assert(a[j] == t[server + 1 + j]);
                }
                if a2.len() > share {
                    assert(a2[share as int] == r[n as int]);
                }
                lemma_first_index_unique(a2, pt, share as int);
            } else if a2.len() > 0 {
                assert(r.len() > n + 1);
            }
        },
        PrefixKind::Disk => {},
    }
}

/// The names left after normalising a path in which no name starts with a
/// drive are normal names of the path's kind, and the walk restarts at no
/// drive.
proof fn lemma_normalized_names(s: Seq<char>)
    requires
        no_drive_names(parse_path(s).comps),
    ensures
        ({
            let m = parse_path(s);
            let v = m.kind matches Some(k) && k.is_verbatim();
            &&& walk(m.comps).drive is None
            &&& forall|i: int|
                0 <= i < walk(m.comps).names.len() ==> is_normal_name(#[trigger] walk(m.comps).names[i], v)
        }),
{
    let m = parse_path(s);
    let v = m.kind matches Some(k) && k.is_verbatim();
    let n = prefix_len(s);
    let after = s.skip(n as int);
    let root = after.len() > 0 && is_sep(after[0]);
    let body = if root {
        after.skip(1)
    } else {
        after
    };
    lemma_body_comps_normal(body, v);
    assert(m.comps == body_comps(body, v));
    assert forall|i: int| 0 <= i < m.comps.len() implies (#[trigger] m.comps[i] matches Comp::Normal(x)
        ==> is_normal_name(x, v)) by {
        assert(m.comps[i] matches Comp::Normal(x) ==> !starts_with_drive(x));
    }
    lemma_walk_normal(m.comps, v);
}

/// A path whose prefix is not a bare drive, and which has components, has
/// a separator right after its prefix.
proof fn lemma_comps_after_root(s: Seq<char>)
    ensures
        parse_path(s).comps.len() > 0 && !(parse_path(s).kind == Some(PrefixKind::Disk)) && parse_path(
            s,
        ).kind is Some ==> parse_path(s).physical_root,
{
    lemma_prefix_followed_by_sep(s);
    lemma_prefix_len(s);
    let n = prefix_len(s);
    let after = s.skip(n as int);
    if after.len() == 0 {
        assert(after =~= Seq::<char>::empty());
        let v = parse_path(s).kind matches Some(k) && k.is_verbatim();
        assert(body_comps(Seq::empty(), v) =~= Seq::<Comp>::empty()) by {
            lemma_first_index(Seq::<char>::empty(), sep_pred(v));
            assert(classify(Seq::<char>::empty().take(0), v) is None);
        }
    } else if parse_path(s).kind is Some {
        assert(after[0] == s[n as int]);
    }
}

/// The text after the prefix of a rendered path: a separator exactly when
/// a root was rendered, then the names joined.
proof fn lemma_rendered_body(p: Seq<char>, rd: bool, names: Seq<Seq<char>>, v: bool)
    requires
        forall|i: int| 0 <= i < names.len() ==> is_normal_name(#[trigger] names[i], v),
        !rd && names.len() > 0 ==> !v,
    ensures
        ({
            let after = render(p, rd, names).skip(p.len() as int);
            let root = after.len() > 0 && is_sep(after[0]);
            &&& root == rd
            &&& (if root {
                after.skip(1)
            } else {
                after
            }) == join_names(names)
        }),
{
    let j = join_names(names);
    let after = render(p, rd, names).skip(p.len() as int);
    if rd {
        assert(after =~= seq!['\\'] + j);
        assert(after.skip(1) =~= j);
    } else {
        assert(after =~= j);
        if names.len() > 0 {
            lemma_join_names_front(names);
            assert(is_normal_name(names[0], v));
            assert(names[0].len() > 0);
            assert(j[0] == names[0][0]);
            assert(!is_sep_for(names[0][0], v));
        } else {
            assert(j =~= Seq::<char>::empty());
        }
    }
}

/// The prefix of a normalised path reads back as the prefix of the path,
/// unless an empty verbatim share would take the first name.
proof fn lemma_rendered_prefix(s: Seq<char>)
    requires
        no_drive_names(parse_path(s).comps),
        !(parse_path(s).kind == Some(PrefixKind::VerbatimUnc) && verbatim_unc_share(s) == 0 && walk(
            parse_path(s).comps,
        ).names.len() > 0),
    ensures
        parse_prefix(parse_path(s).normalized()) == parse_prefix(s),
{
    let m = parse_path(s);
    let v = m.kind matches Some(k) && k.is_verbatim();
    lemma_normalized_names(s);
    lemma_prefix_len(s);
    lemma_prefix_followed_by_sep(s);
    lemma_comps_after_root(s);
    let names = walk(m.comps).names;
    let rd = m.root_dir();
    let n = prefix_len(s);
    let p = m.prefix;
    let j = join_names(names);
    let big_r = if rd {
        seq!['\\']
    } else {
        Seq::<char>::empty()
    };
    let r = render(p, rd, names);
    assert(m.normalized() == r);
    assert(r == p + big_r + j);
    assert(p.len() == n);
    assert(r.take(n as int) =~= p);
    if names.len() > 0 {
        lemma_join_names_front(names);
        assert(names[0].len() > 0);
        assert(j[0] == names[0][0]);
        assert(is_normal_name(names[0], v));
        assert(!is_sep_for(names[0][0], v));
    } else {
        assert(j =~= Seq::<char>::empty());
    }
    if m.comps.len() == 0 {
        assert(walk(m.comps).names =~= Seq::<Seq<char>>::empty());
    }
    match m.kind {
        None => {
            if names.len() > 0 {
                if names[0].len() >= 2 {
                    assert(j.take(names[0].len() as int) =~= names[0]);
                    assert(j[1] == names[0][1]);
                } else if names.len() > 1 {
                    assert(j[1] == '\\');
                }
            }
            if rd && names.len() > 0 {
                assert(r[1] == j[0]);
            }
        },
        Some(k) => {
            if k == PrefixKind::Disk {
                assert(r[0] == s[0] && r[1] == s[1]);
            } else {
                if r.len() > n && !rd {
                    assert(j.len() > 0);
                    assert(false);
                }
                lemma_prefix_reparse(s, r, k, n);
            }
        },
    }
}

/// The text of a path with a verbatim UNC prefix whose share is empty,
/// followed by a root and names: its prefix takes the first name as share.
proof fn lemma_empty_share_prefix(s: Seq<char>, names: Seq<Seq<char>>)
    requires
        parse_prefix(s) matches Some((k, n)) && k == PrefixKind::VerbatimUnc,
        verbatim_unc_share(s) == 0,
        names.len() > 0,
        forall|i: int| 0 <= i < names.len() ==> is_normal_name(#[trigger] names[i], true),
    ensures
        ({
            let n = prefix_len(s);
            let r = s.take(n as int) + seq!['\\'] + join_names(names);
            parse_prefix(r) == Some((PrefixKind::VerbatimUnc, n + 1 + names[0].len()))
        }),
{
    lemma_prefix_len(s);
    let n = prefix_len(s);
    let p = s.take(n as int);
    let j = join_names(names);
    let first = names[0];
    lemma_join_names_front(names);
    assert(is_normal_name(first, true));
    let r = p + seq!['\\'] + j;
    let pt = sep_pred(true);
    let t = s.skip(8);
    let t2 = r.skip(8);
    assert(s.skip(4).skip(4) =~= t);
    let server = component_len(t, true);
    lemma_first_index(t, pt);
    assert(n == 8 + server);
    assert forall|i: int| 0 <= i < n implies r[i] == s[i] by {
        assert(r[i] == p[i]);
    }
    assert(r[0] == s[0] && r[1] == s[1] && r[2] == s[2] && r[3] == s[3]);
    assert(r.skip(4)[0] == s.skip(4)[0] && r.skip(4)[1] == s.skip(4)[1]);
    assert(r.skip(4)[2] == s.skip(4)[2] && r.skip(4)[3] == s.skip(4)[3]);
    assert(r.skip(4).skip(4) =~= t2);
    assert forall|i: int| 0 <= i < server implies !pt(#[trigger] t2[i]) by {
        assert(t2[i] == r[8 + i]);
        assert(t[i] == s[8 + i]);
    }
    assert(t2[server as int] == r[n as int]);
    lemma_first_index_unique(t2, pt, server as int);
    let a2 = after_component(t2, true);
    assert(a2 =~= j);
    assert forall|i: int| 0 <= i < first.len() implies !pt(#[trigger] a2[i]) by {
        assert(a2[i] == first[i]);
    }
    if a2.len() > first.len() {
        assert(a2[first.len() as int] == '\\');
    }
    lemma_first_index_unique(a2, pt, first.len() as int);
}

/// A verbatim UNC prefix with an empty share reads its first name back as
/// the share: the text after normalising is still the same.
proof fn lemma_empty_share_reparse(s: Seq<char>)
    requires
        no_drive_names(parse_path(s).comps),
        parse_path(s).kind == Some(PrefixKind::VerbatimUnc),
        verbatim_unc_share(s) == 0,
        walk(parse_path(s).comps).names.len() > 0,
    ensures
        parse_path(parse_path(s).normalized()).normalized() == parse_path(s).normalized(),
{
    let m = parse_path(s);
    lemma_normalized_names(s);
    lemma_prefix_len(s);
    lemma_comps_after_root(s);
    let names = walk(m.comps).names;
    if m.comps.len() == 0 {
        assert(walk(m.comps).names =~= Seq::<Seq<char>>::empty());
    }
    assert(m.physical_root);
    let n = prefix_len(s);
    let p = m.prefix;
    let j = join_names(names);
    let first = names[0];
    let rest = names.skip(1);
    let tail = if names.len() > 1 {
        seq!['\\'] + join_names(rest)
    } else {
        Seq::<char>::empty()
    };
    lemma_join_names_front(names);
    assert(j == first + tail);
    let r = m.normalized();
    assert(r == p + seq!['\\'] + j);
    lemma_empty_share_prefix(s, names);
    let n2 = n + 1 + first.len();
    let m2 = parse_path(r);
    assert(m2.prefix =~= p + seq!['\\'] + first);
    let after = r.skip(n2 as int);
    assert(after =~= tail);
    assert forall|i: int| 0 <= i < rest.len() implies is_normal_name(#[trigger] rest[i], true) by {
        assert(rest[i] == names[i + 1]);
    }
    assert forall|i: int| 0 <= i < rest.len() implies !starts_with_drive(#[trigger] rest[i]) by {
        assert(is_normal_name(rest[i], true));
    }
    lemma_body_comps_join(rest, true);
    lemma_walk_names(rest);
    if names.len() > 1 {
        assert(m2.physical_root);
        assert(after.skip(1) =~= join_names(rest));
    } else {
        assert(!m2.physical_root);
        assert(rest =~= Seq::<Seq<char>>::empty());
        assert(after =~= join_names(rest));
    }
    assert(m2.comps == name_comps(rest));
    assert(walk(m2.comps) == walk(name_comps(rest)));
    assert(m2.normalized() =~= r);
}

/// What a walk restarts at is a drive, and a walk restarts nowhere only when
/// no name starts with a drive.
proof fn lemma_walk_drive(cs: Seq<Comp>)
    ensures
        walk(cs).drive matches Some(d) ==> d.len() == 2 && starts_with_drive(d),
        walk(cs).drive is None ==> no_drive_names(cs),
    decreases cs.len(),
{
    if cs.len() > 0 {
        let init = cs.drop_last();
        lemma_walk_drive(init);
        assert(cs.last() == cs[cs.len() - 1]);
        if walk(cs).drive is None {
            assert forall|i: int| 0 <= i < cs.len() implies (#[trigger] cs[i] matches Comp::Normal(n)
                ==> !starts_with_drive(n)) by {
                if i < init.len() {
                    assert(cs[i] == init[i]);
                }
            }
        }
    }
}

/// The path is restarted at no drive, or every name left after the restart
/// is a normal name outside a verbatim path: not `.` or `..`, holding no `/`,
/// and not itself starting with a drive.
pub open spec fn normalizes_stably(s: Seq<char>) -> bool {
    let w = walk(parse_path(s).comps);
    w.drive is Some ==> forall|i: int| 0 <= i < w.names.len() ==> is_normal_name(#[trigger] w.names[i], false)
}

/// A path restarted at a drive reads back as that drive and the names left.
proof fn lemma_restart_reparse(s: Seq<char>)
    requires
        walk(parse_path(s).comps).drive is Some,
        normalizes_stably(s),
    ensures
        parse_path(parse_path(s).normalized()).normalized() == parse_path(s).normalized(),
{
    let m = parse_path(s);
    let w = walk(m.comps);
    lemma_walk_drive(m.comps);
    let d = w.drive->0;
    let names = w.names;
    let r = render(d, false, names);
    assert(m.normalized() == r);
    let j = join_names(names);
    assert(r =~= d + j);
    assert(r[0] == d[0] && r[1] == d[1]);
    assert(parse_prefix(r) == Some((PrefixKind::Disk, 2nat)));
    lemma_rendered_body(d, false, names, false);
    assert forall|i: int| 0 <= i < names.len() implies !starts_with_drive(#[trigger] names[i]) by {
        assert(is_normal_name(names[i], false));
    }
    lemma_walk_names(names);
    lemma_body_comps_join(names, false);
    let m2 = parse_path(r);
    assert(r.take(2) =~= d);
    assert(m2.prefix == d);
    assert(!m2.physical_root);
    assert(m2.comps == name_comps(names));
    assert(walk(m2.comps) == walk(name_comps(names)));
}

/// Normalising the text of a normalised path gives that text back, for every
/// path that normalises stably (see [`normalizes_stably`]). Outside that it
/// can fail: `a\C:D:x` normalises to `C:D:x`, and normalising that restarts
/// at `D:` and gives `D:x`; `a\C:..` normalises to `C:..`, and then to `C:`.
pub proof fn lemma_normalize_idempotent(s: Seq<char>)
    requires
        normalizes_stably(s),
    ensures
        parse_path(parse_path(s).normalized()).normalized() == parse_path(s).normalized(),
{
    let m = parse_path(s);
    lemma_walk_drive(m.comps);
    if walk(m.comps).drive is Some {
        lemma_restart_reparse(s);
    } else if m.kind == Some(PrefixKind::VerbatimUnc) && verbatim_unc_share(s) == 0 && walk(m.comps).names.len()
        > 0 {
        lemma_empty_share_reparse(s);
    } else {
        let v = m.kind matches Some(k) && k.is_verbatim();
        lemma_normalized_names(s);
        lemma_comps_after_root(s);
        lemma_rendered_prefix(s);
        lemma_prefix_len(s);
        let names = walk(m.comps).names;
        let rd = m.root_dir();
        let r = m.normalized();
        assert(r == render(m.prefix, rd, names));
        if m.comps.len() == 0 {
            assert(walk(m.comps).names =~= Seq::<Seq<char>>::empty());
        }
        lemma_rendered_body(m.prefix, rd, names, v);
        assert forall|i: int| 0 <= i < names.len() implies !starts_with_drive(#[trigger] names[i]) by {
            assert(is_normal_name(names[i], v));
        }
        lemma_walk_names(names);
        lemma_body_comps_join(names, v);
        assert(r.take(prefix_len(s) as int) =~= m.prefix);
        let m2 = parse_path(r);
        assert(prefix_len(r) == prefix_len(s));
        assert(m2.kind == m.kind);
        assert(m2.prefix == m.prefix);
        assert(m2.physical_root == rd);
        assert(m2.comps == name_comps(names));
        assert(m2.root_dir() == rd);
        assert(walk(m2.comps) == walk(name_comps(names)));
    }
}

} // verus!
