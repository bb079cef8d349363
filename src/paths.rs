//! How a flattened path leads back to its leaf in the document.
use vstd::prelude::*;

use crate::flat_map::keys_distinct;
use crate::flatten::{flat, flat_members, flat_of, join_path};
use crate::value::Json;

verus! {

/// Every mapping in `v`, however deep, names its members distinctly.
pub open spec fn names_distinct(v: Json) -> bool
    decreases v,
{
    match v {
        Json::Object(members) => keys_distinct(members) && forall|i: int|
            0 <= i < members.len() ==> names_distinct(#[trigger] members[i].1),
        _ => true,
    }
}

/// The value of the member named `name`, if there is one.
pub open spec fn member(members: Seq<(Seq<char>, Json)>, name: Seq<char>) -> Option<Json>
    decreases members.len(),
{
    if members.len() == 0 {
        None
    } else if members[members.len() - 1].0 == name {
        Some(members[members.len() - 1].1)
    } else {
        member(members.subrange(0, members.len() - 1), name)
    }
}

/// The node reached from `v` by descending, in turn, into the members named
/// by `segs`.
pub open spec fn descend(v: Json, segs: Seq<Seq<char>>) -> Option<Json>
    decreases segs.len(),
{
    if segs.len() == 0 {
        Some(v)
    } else {
        match v {
            Json::Object(members) => match member(members, segs[0]) {
                Some(child) => descend(child, segs.drop_first()),
                None => None,
            },
            _ => None,
        }
    }
}

/// The path reached from `prefix` by appending the names `segs`, in turn.
pub open spec fn path_from(prefix: Seq<char>, segs: Seq<Seq<char>>) -> Seq<char>
    decreases segs.len(),
{
    if segs.len() == 0 {
        prefix
    } else {
        path_from(join_path(prefix, segs[0]), segs.drop_first())
    }
}

/// A member name that is not empty and holds no dot.
pub open spec fn plain_name(name: Seq<char>) -> bool {
    name.len() > 0 && !name.contains('.')
}

pub open spec fn all_plain(segs: Seq<Seq<char>>) -> bool {
    forall|k: int| 0 <= k < segs.len() ==> plain_name(#[trigger] segs[k])
}

/// Every mapping in `v`, however deep, has only plain member names.
pub open spec fn names_plain(v: Json) -> bool
    decreases v,
{
    match v {
        Json::Object(members) => forall|i: int|
            0 <= i < members.len() ==> plain_name(#[trigger] members[i].0) && names_plain(members[i].1),
        _ => true,
    }
}

/// The dot-separated continuation that `segs` adds after a non-empty path.
pub open spec fn dotted_tail(segs: Seq<Seq<char>>) -> Seq<char>
    decreases segs.len(),
{
    if segs.len() == 0 {
        Seq::empty()
    } else {
        seq!['.'] + segs[0] + dotted_tail(segs.drop_first())
    }
}

proof fn lemma_path_from_nonempty(prefix: Seq<char>, segs: Seq<Seq<char>>)
    requires
        prefix.len() > 0,
    ensures
        path_from(prefix, segs) == prefix + dotted_tail(segs),
    decreases segs.len(),
{
    if segs.len() > 0 {
        let next = join_path(prefix, segs[0]);
        lemma_path_from_nonempty(next, segs.drop_first());
        assert(next + dotted_tail(segs.drop_first()) =~= prefix + dotted_tail(segs));
    }
}

proof fn lemma_split_unique(a: Seq<char>, x: Seq<char>, b: Seq<char>, y: Seq<char>)
    requires
        !a.contains('.'),
        !b.contains('.'),
        x.len() == 0 || x[0] == '.',
        y.len() == 0 || y[0] == '.',
        a + x == b + y,
    ensures
        a == b,
        x == y,
{
    if a.len() < b.len() {
        if x.len() == 0 {
            assert((a + x).len() < (b + y).len());
        } else {
            assert((a + x)[a.len() as int] == '.');
            assert((b + y)[a.len() as int] == b[a.len() as int]);
            assert(b.contains(b[a.len() as int]));
        }
    } else if b.len() < a.len() {
        if y.len() == 0 {
            assert((a + x).len() > (b + y).len());
        } else {
            assert((b + y)[b.len() as int] == '.');
            assert((a + x)[b.len() as int] == a[b.len() as int]);
            assert(a.contains(a[b.len() as int]));
        }
    } else {
        assert(a =~= (a + x).subrange(0, a.len() as int));
        assert(b =~= (b + y).subrange(0, b.len() as int));
        assert(x =~= (a + x).subrange(a.len() as int, (a + x).len() as int));
        assert(y =~= (b + y).subrange(b.len() as int, (b + y).len() as int));
    }
}

proof fn lemma_dotted_tail_injective(s: Seq<Seq<char>>, t: Seq<Seq<char>>)
    requires
        all_plain(s),
        all_plain(t),
        dotted_tail(s) == dotted_tail(t),
    ensures
        s == t,
    decreases s.len(),
{
    if s.len() == 0 && t.len() == 0 {
        assert(s =~= t);
    } else if s.len() == 0 {
        assert(dotted_tail(t).len() > 0);
    } else if t.len() == 0 {
        assert(dotted_tail(s).len() > 0);
    } else {
        let rs = s.drop_first();
        let rt = t.drop_first();
        assert(plain_name(s[0]) && plain_name(t[0]));
        assert(all_plain(rs) && all_plain(rt)) by {
            assert forall|k: int| 0 <= k < rs.len() implies plain_name(#[trigger] rs[k]) by {
                assert(plain_name(s[k + 1]));
            }
            assert forall|k: int| 0 <= k < rt.len() implies plain_name(#[trigger] rt[k]) by {
                assert(plain_name(t[k + 1]));
            }
        }
        assert(s[0] + dotted_tail(rs) =~= dotted_tail(s).drop_first());
        assert(t[0] + dotted_tail(rt) =~= dotted_tail(t).drop_first());
        if rs.len() > 0 {
            assert(dotted_tail(rs)[0] == '.');
        }
        if rt.len() > 0 {
            assert(dotted_tail(rt)[0] == '.');
        }
        lemma_split_unique(s[0], dotted_tail(rs), t[0], dotted_tail(rt));
        lemma_dotted_tail_injective(rs, rt);
        assert(s =~= seq![s[0]] + rs);
        assert(t =~= seq![t[0]] + rt);
    }
}

/// Plain member names, joined with dots from the root, can be split back
/// only one way.
pub proof fn lemma_root_path_injective(s: Seq<Seq<char>>, t: Seq<Seq<char>>)
    requires
        all_plain(s),
        all_plain(t),
        path_from(Seq::empty(), s) == path_from(Seq::empty(), t),
    ensures
        s == t,
{
    if s.len() > 0 {
        assert(plain_name(s[0]));
        assert(all_plain(s.drop_first())) by {
            assert forall|k: int| 0 <= k < s.drop_first().len() implies plain_name(#[trigger] s.drop_first()[k]) by {
                assert(plain_name(s[k + 1]));
            }
        }
        lemma_path_from_nonempty(s[0], s.drop_first());
    }
    if t.len() > 0 {
        assert(plain_name(t[0]));
        assert(all_plain(t.drop_first())) by {
            assert forall|k: int| 0 <= k < t.drop_first().len() implies plain_name(#[trigger] t.drop_first()[k]) by {
                assert(plain_name(t[k + 1]));
            }
        }
        lemma_path_from_nonempty(t[0], t.drop_first());
    }
    if s.len() == 0 && t.len() == 0 {
        assert(s =~= t);
    } else if s.len() == 0 {
        assert(path_from(Seq::empty(), t).len() > 0);
    } else if t.len() == 0 {
        assert(path_from(Seq::empty(), s).len() > 0);
    } else {
        let rs = s.drop_first();
        let rt = t.drop_first();
        if rs.len() > 0 {
            assert(dotted_tail(rs)[0] == '.');
        }
        if rt.len() > 0 {
            assert(dotted_tail(rt)[0] == '.');
        }
        lemma_split_unique(s[0], dotted_tail(rs), t[0], dotted_tail(rt));
        lemma_dotted_tail_injective(rs, rt);
        assert(s =~= seq![s[0]] + rs);
        assert(t =~= seq![t[0]] + rt);
    }
}

proof fn lemma_member(members: Seq<(Seq<char>, Json)>, i: int)
    requires
        keys_distinct(members),
        0 <= i < members.len(),
    ensures
        member(members, members[i].0) == Some(members[i].1),
    decreases members.len(),
{
    if i < members.len() - 1 {
        let init = members.subrange(0, members.len() - 1);
        assert(members[members.len() - 1].0 != members[i].0);
        assert forall|a: int, b: int|
            0 <= a < init.len() && 0 <= b < init.len() && a != b implies #[trigger] init[a].0
            != #[trigger] init[b].0 by {
            assert(members[a].0 != members[b].0);
        }
        lemma_member(init, i);
    }
}

proof fn lemma_flat_members_source(prefix: Seq<char>, members: Seq<(Seq<char>, Json)>, p: Seq<char>)
    requires
        flat_members(prefix, members).contains_key(p),
    ensures
        exists|i: int|
            0 <= i < members.len() && #[trigger] flat(join_path(prefix, members[i].0), members[i].1).contains_key(p)
                && flat_members(prefix, members)[p] == flat(join_path(prefix, members[i].0), members[i].1)[p],
    decreases members.len(),
{
    let n = members.len() - 1;
    let init = members.subrange(0, n);
    if !flat(join_path(prefix, members[n].0), members[n].1).contains_key(p) {
        lemma_flat_members_source(prefix, init, p);
        let i = choose|i: int|
            0 <= i < init.len() && #[trigger] flat(join_path(prefix, init[i].0), init[i].1).contains_key(p)
                && flat_members(prefix, init)[p] == flat(join_path(prefix, init[i].0), init[i].1)[p];
        assert(members[i] == init[i]);
    }
}

proof fn lemma_flat_leads_to_leaf(prefix: Seq<char>, v: Json, p: Seq<char>)
    requires
        names_distinct(v),
        flat(prefix, v).contains_key(p),
    ensures
        exists|segs: Seq<Seq<char>>|
            path_from(prefix, segs) == p && #[trigger] descend(v, segs) == Some(flat(prefix, v)[p])
                && (names_plain(v) ==> all_plain(segs)),
        !(flat(prefix, v)[p] is Object),
    decreases v,
{
    match v {
        Json::Object(members) => {
            lemma_flat_members_source(prefix, members, p);
            let i = choose|i: int|
                0 <= i < members.len() && #[trigger] flat(join_path(prefix, members[i].0), members[i].1).contains_key(p)
                    && flat_members(prefix, members)[p] == flat(join_path(prefix, members[i].0), members[i].1)[p];
            let child = members[i].1;
            let name = members[i].0;
            assert(names_distinct(child));
            lemma_flat_leads_to_leaf(join_path(prefix, name), child, p);
            let segs = choose|segs: Seq<Seq<char>>|
                path_from(join_path(prefix, name), segs) == p && #[trigger] descend(child, segs) == Some(
                    flat(join_path(prefix, name), child)[p],
                ) && (names_plain(child) ==> all_plain(segs));
            lemma_member(members, i);
            let full = seq![name] + segs;
            assert(full.drop_first() =~= segs);
            assert(path_from(prefix, full) == p);
            assert(descend(v, full) == Some(flat(prefix, v)[p]));
            if names_plain(v) {
                assert(plain_name(name) && names_plain(child));
                assert forall|k: int| 0 <= k < full.len() implies plain_name(#[trigger] full[k]) by {
                    if k > 0 {
                        assert(full[k] == segs[k - 1]);
                    }
                }
            }
        },
        _ => {
            assert(path_from(prefix, Seq::empty()) == p);
            assert(descend(v, Seq::empty()) == Some(flat(prefix, v)[p]));
        },
    }
}

/// In a document whose mappings name their members distinctly, every path of
/// its flattening is reached by appending member names from the root, and
/// descending through those members leads to the leaf recorded there, which
/// is not a mapping.
pub proof fn lemma_flat_paths_lead_to_leaves(doc: Json, p: Seq<char>)
    requires
        names_distinct(doc),
        flat_of(doc).contains_key(p),
    ensures
        exists|segs: Seq<Seq<char>>|
            path_from(Seq::empty(), segs) == p && #[trigger] descend(doc, segs) == Some(flat_of(doc)[p]),
        !(flat_of(doc)[p] is Object),
{
    lemma_flat_leads_to_leaf(Seq::empty(), doc, p);
}

/// Where, besides, every member name is non-empty and free of dots, a path of
/// the flattening splits into member names in exactly one way, and descending
/// along them leads to the one leaf recorded under the path.
pub proof fn lemma_flat_path_designates_one_leaf(doc: Json, p: Seq<char>)
    requires
        names_distinct(doc),
        names_plain(doc),
        flat_of(doc).contains_key(p),
    ensures
        exists|segs: Seq<Seq<char>>|
            all_plain(segs) && path_from(Seq::empty(), segs) == p && #[trigger] descend(doc, segs)
                == Some(flat_of(doc)[p]),
        forall|segs: Seq<Seq<char>>|
            all_plain(segs) && path_from(Seq::empty(), segs) == p ==> #[trigger] descend(doc, segs)
                == Some(flat_of(doc)[p]),
        !(flat_of(doc)[p] is Object),
{
    lemma_flat_leads_to_leaf(Seq::empty(), doc, p);
    let found = choose|segs: Seq<Seq<char>>|
        path_from(Seq::empty(), segs) == p && #[trigger] descend(doc, segs) == Some(flat(Seq::empty(), doc)[p])
            && (names_plain(doc) ==> all_plain(segs));
    assert forall|segs: Seq<Seq<char>>|
        all_plain(segs) && path_from(Seq::empty(), segs) == p implies #[trigger] descend(doc, segs)
            == Some(flat_of(doc)[p]) by {
        lemma_root_path_injective(segs, found);
    }
}

} // verus!
