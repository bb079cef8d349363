//! The translation view: every path of either document, in sorted order, with
//! the value on each side.
use vstd::prelude::*;

use crate::flat_map::FlatMap;
use crate::flatten::{flat_of, flatten};
use crate::order::{lemma_lex_total, lemma_lex_transitive, lex_less, str_less};
use crate::value::{Json, Value};

verus! {

/// One path with its value in the source document and in the target document;
/// `None` where that side has no such path.
pub struct TranslationItem {
    pub key: String,
    pub source: Option<Value>,
    pub target: Option<Value>,
}

pub open spec fn opt_model(o: Option<Value>) -> Option<Json> {
    match o {
        Some(v) => Some(v@),
        None => None,
    }
}

/// The value under `k`, if `m` has one.
pub open spec fn lookup(m: Map<Seq<char>, Json>, k: Seq<char>) -> Option<Json> {
    if m.contains_key(k) {
        Some(m[k])
    } else {
        None
    }
}

pub open spec fn key_views(s: Seq<String>) -> Seq<Seq<char>> {
    s.map_values(|x: String| x@)
}

pub open spec fn strictly_sorted(s: Seq<Seq<char>>) -> bool {
    forall|i: int, j: int| 0 <= i < j < s.len() ==> lex_less(#[trigger] s[i], #[trigger] s[j])
}

pub open spec fn item_keys(r: Seq<TranslationItem>) -> Seq<Seq<char>> {
    r.map_values(|t: TranslationItem| t.key@)
}

/// `r` lists the paths of `a` and `b`, each once, in strictly increasing
/// order, each with its value on either side.
pub open spec fn is_alignment(a: Map<Seq<char>, Json>, b: Map<Seq<char>, Json>, r: Seq<TranslationItem>) -> bool {
    &&& strictly_sorted(item_keys(r))
    &&& forall|k: Seq<char>|
        #[trigger] item_keys(r).contains(k) <==> (a.contains_key(k) || b.contains_key(k))
    &&& forall|i: int|
        0 <= i < r.len() ==> opt_model(#[trigger] r[i].source) == lookup(a, r[i].key@)
            && opt_model(r[i].target) == lookup(b, r[i].key@)
}

/// Adds `key` to the strictly increasing `keys`, unless it is already there.
fn insert_sorted(keys: &mut Vec<String>, key: &String)
    requires
        strictly_sorted(key_views(old(keys)@)),
    ensures
        strictly_sorted(key_views(final(keys)@)),
        forall|k: Seq<char>|
            #[trigger] key_views(final(keys)@).contains(k) <==> (key_views(old(keys)@).contains(k)
                || k == key@),
{
    let ghost old_keys = key_views(keys@);
    let mut p: usize = 0;
    while p < keys.len() && str_less(keys[p].as_str(), key.as_str())
        invariant
            p <= keys@.len(),
            old_keys == key_views(keys@),
            strictly_sorted(old_keys),
            forall|q: int| 0 <= q < p ==> lex_less(old_keys[q], key@),
        decreases keys@.len() - p,
    {
        p += 1;
    }
    if p < keys.len() && keys[p] == *key {
        proof {
            assert(old_keys[p as int] == key@);
        }
        return;
    }
    proof {
        if p < keys@.len() {
            lemma_lex_total(old_keys[p as int], key@);
        }
    }
    keys.insert(p, key.clone());
    proof {
        let s = key_views(keys@);
        assert(s =~= old_keys.insert(p as int, key@));
        assert forall|i: int, j: int| 0 <= i < j < s.len() implies lex_less(#[trigger] s[i], #[trigger] s[j]) by {
            if j == p {
            } else if i == p {
                if j > p + 1 {
                    lemma_lex_transitive(key@, old_keys[p as int], old_keys[j - 1]);
                }
            } else if i < p && j > p {
                if j - 1 > p {
                    lemma_lex_transitive(key@, old_keys[p as int], old_keys[j - 1]);
                }
                lemma_lex_transitive(old_keys[i], key@, old_keys[j - 1]);
            }
        }
        assert forall|k: Seq<char>| #[trigger] s.contains(k) <==> (old_keys.contains(k) || k == key@) by {
            if s.contains(k) {
                let i = choose|i: int| 0 <= i < s.len() && s[i] == k;
                if i < p {
                    assert(old_keys[i] == k);
                } else if i > p {
                    assert(old_keys[i - 1] == k);
                }
            }
            if old_keys.contains(k) {
                let i = choose|i: int| 0 <= i < old_keys.len() && old_keys[i] == k;
                if i < p {
                    assert(s[i] == k);
                } else {
                    assert(s[i + 1] == k);
                }
            }
            if k == key@ {
                assert(s[p as int] == k);
            }
        }
    }
}

/// Adds every path of `m` to the strictly increasing `keys`.
#[verifier::loop_isolation(false)]
fn insert_all(keys: &mut Vec<String>, m: &FlatMap)
    requires
        m.wf(),
        strictly_sorted(key_views(old(keys)@)),
    ensures
        strictly_sorted(key_views(final(keys)@)),
        forall|k: Seq<char>|
            #[trigger] key_views(final(keys)@).contains(k) <==> (key_views(old(keys)@).contains(k)
                || m@.contains_key(k)),
{
    proof {
        m.lemma_view();
    }
    let ghost start = key_views(keys@);
    let mut i: usize = 0;
    while i < m.len()
        invariant
            i <= m.pairs().len(),
            strictly_sorted(key_views(keys@)),
            forall|k: Seq<char>|
                #[trigger] key_views(keys@).contains(k) <==> (start.contains(k) || exists|x: int|
                    0 <= x < i && m.pairs()[x].0 == k),
        decreases m.pairs().len() - i,
    {
        insert_sorted(keys, m.key(i));
        proof {
            assert forall|k: Seq<char>|
                #[trigger] key_views(keys@).contains(k) <==> (start.contains(k) || exists|x: int|
                    0 <= x < i + 1 && m.pairs()[x].0 == k) by {
                if k == m.pairs()[i as int].0 {
                    assert(exists|x: int| 0 <= x < i + 1 && m.pairs()[x].0 == k);
                }
            }
        }
        i += 1;
    }
    proof {
        assert forall|k: Seq<char>|
            #[trigger] key_views(keys@).contains(k) <==> (start.contains(k) || m@.contains_key(k)) by {
            if m@.contains_key(k) {
                let x = choose|x: int| 0 <= x < m.pairs().len() && m.pairs()[x].0 == k;
                assert(exists|x: int| 0 <= x < i && m.pairs()[x].0 == k);
            }
        }
    }
}

fn copy_of(v: Option<&Value>) -> (r: Option<Value>)
    ensures
        opt_model(r) == match v {
            Some(x) => Some(x@),
            None => None::<Json>,
        },
{
    match v {
        Some(x) => Some(x.duplicate()),
        None => None,
    }
}

/// Lines up two flattened documents path by path.
#[verifier::loop_isolation(false)]
pub fn align_flat(a: &FlatMap, b: &FlatMap) -> (r: Vec<TranslationItem>)
    requires
        a.wf(),
        b.wf(),
    ensures
        is_alignment(a@, b@, r@),
{
    let mut keys: Vec<String> = Vec::new();
    proof {
        assert(key_views(keys@) =~= Seq::<Seq<char>>::empty());
    }
    insert_all(&mut keys, a);
    insert_all(&mut keys, b);
    let mut r: Vec<TranslationItem> = Vec::new();
    let mut t: usize = 0;
    while t < keys.len()
        invariant
            t <= keys@.len(),
            r@.len() == t,
            forall|i: int| 0 <= i < t ==> (#[trigger] r@[i]).key@ == keys@[i]@,
            forall|i: int|
                0 <= i < t ==> opt_model(#[trigger] r@[i].source) == lookup(a@, r@[i].key@)
                    && opt_model(r@[i].target) == lookup(b@, r@[i].key@),
        decreases keys@.len() - t,
    {
        let source = copy_of(a.get(&keys[t]));
        let target = copy_of(b.get(&keys[t]));
        r.push(TranslationItem { key: keys[t].clone(), source, target });
        t += 1;
    }
    proof {
        assert(item_keys(r@) =~= key_views(keys@));
    }
    r
}

/// Lines up two documents path by path, for side-by-side comparison.
pub fn align(source: &Value, target: &Value) -> (r: Vec<TranslationItem>)
    ensures
        is_alignment(flat_of(source@), flat_of(target@), r@),
{
    let fa = flatten(source);
    let fb = flatten(target);
    align_flat(&fa, &fb)
}

} // verus!
