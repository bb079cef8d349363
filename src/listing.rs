//! Arranging one level of a directory listing for display.
use vstd::prelude::*;
use vstd::multiset::Multiset;
use vstd::string::*;

use crate::order::{lemma_lex_irreflexive, lemma_lex_transitive, lex_less, str_less};

verus! {

/// An entry of a directory listing; `children` holds a directory's own
/// listing, or `None` for a file or a directory that could not be read.
pub struct FileNode {
    pub name: String,
    pub path: String,
    pub is_dir: bool,
    pub children: Option<Vec<FileNode>>,
}

/// Names that begin with a dot are hidden.
pub open spec fn is_hidden(name: Seq<char>) -> bool {
    name.len() > 0 && name[0] == '.'
}

pub open spec fn is_shown(n: FileNode) -> bool {
    !is_hidden(n.name@)
}

/// Directories come before files; within each, names go in lexicographic order.
pub open spec fn listed_before(x: FileNode, y: FileNode) -> bool {
    (x.is_dir && !y.is_dir) || (x.is_dir == y.is_dir && lex_less(x.name@, y.name@))
}

pub open spec fn listing_sorted(s: Seq<FileNode>) -> bool {
    forall|i: int, j: int| 0 <= i < j < s.len() ==> !listed_before(#[trigger] s[j], #[trigger] s[i])
}

proof fn lemma_listed_transitive(x: FileNode, y: FileNode, z: FileNode)
    requires
        listed_before(x, y),
        listed_before(y, z),
    ensures
        listed_before(x, z),
{
    if x.is_dir == y.is_dir && y.is_dir == z.is_dir {
        lemma_lex_transitive(x.name@, y.name@, z.name@);
    }
}

/// Whether `name` is hidden.
pub fn hidden_name(name: &String) -> (r: bool)
    ensures
        r == is_hidden(name@),
{
    !name.as_str().is_empty() && name.as_str().get_char(0) == '.'
}

fn before(x: &FileNode, y: &FileNode) -> (r: bool)
    ensures
        r == listed_before(*x, *y),
{
    (x.is_dir && !y.is_dir) || (x.is_dir == y.is_dir && str_less(x.name.as_str(), y.name.as_str()))
}

/// Places `node` into the sorted `list`, after every entry that it does not
/// come before.
fn insert_listed(list: &mut Vec<FileNode>, node: FileNode)
    requires
        listing_sorted(old(list)@),
    ensures
        listing_sorted(final(list)@),
        final(list)@.to_multiset() == old(list)@.to_multiset().insert(node),
{
    let ghost s0 = list@;
    let mut p: usize = 0;
    while p < list.len() && !before(&node, &list[p])
        invariant
            list@ == s0,
            p <= s0.len(),
            forall|q: int| 0 <= q < p ==> !listed_before(node, s0[q]),
        decreases s0.len() - p,
    {
        p += 1;
    }
    let ghost n = node;
    list.insert(p, node);
    proof {
        let s = list@;
        assert(s =~= s0.insert(p as int, n));
        assert forall|i: int, j: int| 0 <= i < j < s.len() implies !listed_before(
            #[trigger] s[j],
            #[trigger] s[i],
        ) by {
            if i == p && j > p {
                if listed_before(s0[j - 1], n) {
                    lemma_listed_transitive(s0[j - 1], n, s0[p as int]);
                    if j - 1 == p {
                        lemma_lex_irreflexive(s0[p as int].name@);
                    }
                }
            } else if i < p && j > p {
                assert(s[j] == s0[j - 1]);
            } else if i > p {
                assert(s[j] == s0[j - 1]);
                assert(s[i] == s0[i - 1]);
            }
        }
        assert(s.remove(p as int) =~= s0);
        s.to_multiset_ensures();
        assert(s.to_multiset() =~= s0.to_multiset().insert(n));
    }
}

/// One level of a directory listing as it is shown: hidden entries left out,
/// directories first, then by name.
pub fn arrange_level(entries: Vec<FileNode>) -> (r: Vec<FileNode>)
    ensures
        r@.to_multiset() == entries@.filter(|n: FileNode| is_shown(n)).to_multiset(),
        listing_sorted(r@),
{
    let ghost all = entries@.filter(|n: FileNode| is_shown(n));
    let mut rest = entries;
    let mut r: Vec<FileNode> = Vec::new();
    proof {
        assert(r@ =~= Seq::<FileNode>::empty());
        r@.to_multiset_ensures();
        assert(r@.to_multiset() =~= Multiset::<FileNode>::empty());
        assert(r@.to_multiset().add(all.to_multiset()) =~= all.to_multiset());
    }
    while rest.len() > 0
        invariant
            listing_sorted(r@),
            r@.to_multiset().add(rest@.filter(|n: FileNode| is_shown(n)).to_multiset()) == all.to_multiset(),
        decreases rest@.len(),
    {
        let ghost before_rest = rest@;
        let node = rest.pop().unwrap();
        proof {
            assert(before_rest =~= rest@.push(node));
            rest@.lemma_filter_push(node, |n: FileNode| is_shown(n));
            rest@.filter(|n: FileNode| is_shown(n)).to_multiset_ensures();
        }
        if !hidden_name(&node.name) {
            insert_listed(&mut r, node);
        }
        proof {
            assert(r@.to_multiset().add(rest@.filter(|n: FileNode| is_shown(n)).to_multiset())
                =~= all.to_multiset());
        }
    }
    proof {
        assert(rest@.filter(|n: FileNode| is_shown(n)).len() == 0) by {
            rest@.lemma_filter_len(|n: FileNode| is_shown(n));
        }
        assert(rest@.filter(|n: FileNode| is_shown(n)) =~= Seq::<FileNode>::empty());
        rest@.filter(|n: FileNode| is_shown(n)).to_multiset_ensures();
        assert(rest@.filter(|n: FileNode| is_shown(n)).to_multiset() =~= Multiset::<FileNode>::empty());
        assert(r@.to_multiset() =~= all.to_multiset());
    }
    r
}

} // verus!
