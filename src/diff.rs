//! Comparing two documents: modified, renamed, added and deleted paths.
use vstd::prelude::*;

use crate::flat_map::FlatMap;
use crate::flatten::{flat_of, flatten};
use crate::value::{Json, Value};

verus! {

/// A path present only in the first document whose value reappears in the
/// second, under a path present only there.
pub struct RenamedKey {
    pub old_key: String,
    pub new_key: String,
    pub value: Value,
}

/// A path present in both documents with different values.
pub struct ModifiedKey {
    pub key: String,
    pub old_value: Value,
    pub new_value: Value,
}

/// A path with its value: added (only in the second document) or deleted
/// (only in the first).
pub struct DiffEntry {
    pub key: String,
    pub value: Value,
}

pub struct DiffResult {
    pub renamed: Vec<RenamedKey>,
    pub modified: Vec<ModifiedKey>,
    pub added: Vec<DiffEntry>,
    pub deleted: Vec<DiffEntry>,
}

pub open spec fn entry_keys(s: Seq<DiffEntry>) -> Seq<Seq<char>> {
    s.map_values(|e: DiffEntry| e.key@)
}

pub open spec fn modified_key_seq(s: Seq<ModifiedKey>) -> Seq<Seq<char>> {
    s.map_values(|m: ModifiedKey| m.key@)
}

pub open spec fn old_key_seq(s: Seq<RenamedKey>) -> Seq<Seq<char>> {
    s.map_values(|m: RenamedKey| m.old_key@)
}

pub open spec fn new_key_seq(s: Seq<RenamedKey>) -> Seq<Seq<char>> {
    s.map_values(|m: RenamedKey| m.new_key@)
}

impl DiffResult {
    pub open spec fn modified_keys(&self) -> Seq<Seq<char>> {
        modified_key_seq(self.modified@)
    }

    pub open spec fn renamed_old_keys(&self) -> Seq<Seq<char>> {
        old_key_seq(self.renamed@)
    }

    pub open spec fn renamed_new_keys(&self) -> Seq<Seq<char>> {
        new_key_seq(self.renamed@)
    }

    pub open spec fn added_keys(&self) -> Seq<Seq<char>> {
        entry_keys(self.added@)
    }

    pub open spec fn deleted_keys(&self) -> Seq<Seq<char>> {
        entry_keys(self.deleted@)
    }
}

/// Each entry of `m` names a path of both maps whose values differ, and
/// carries both values.
pub open spec fn modified_valid(a: Map<Seq<char>, Json>, b: Map<Seq<char>, Json>, m: ModifiedKey) -> bool {
    &&& a.contains_key(m.key@)
    &&& b.contains_key(m.key@)
    &&& m.old_value@ == a[m.key@]
    &&& m.new_value@ == b[m.key@]
    &&& a[m.key@] != b[m.key@]
}

/// A rename goes from a path only in `a` to a path only in `b` that holds the
/// same value.
pub open spec fn renamed_valid(a: Map<Seq<char>, Json>, b: Map<Seq<char>, Json>, m: RenamedKey) -> bool {
    &&& a.contains_key(m.old_key@)
    &&& !b.contains_key(m.old_key@)
    &&& b.contains_key(m.new_key@)
    &&& !a.contains_key(m.new_key@)
    &&& m.value@ == a[m.old_key@]
    &&& m.value@ == b[m.new_key@]
}

/// `e` names a path of `here` that `there` lacks, with its value in `here`.
pub open spec fn one_sided_valid(here: Map<Seq<char>, Json>, there: Map<Seq<char>, Json>, e: DiffEntry) -> bool {
    &&& here.contains_key(e.key@)
    &&& !there.contains_key(e.key@)
    &&& e.value@ == here[e.key@]
}

/// `r` classifies every path of `a` and `b`:
/// a path of both with different values is modified, one of both with equal
/// values is left out; a path only in `a` is either renamed to a path only in
/// `b` holding an equal value, or deleted; a path only in `b` is either the
/// target of exactly one rename, or added. Renames pair paths one to one, and
/// no deleted value equals an added one (every possible rename was made).
pub open spec fn is_diff(a: Map<Seq<char>, Json>, b: Map<Seq<char>, Json>, r: DiffResult) -> bool {
    &&& forall|i: int| 0 <= i < r.modified@.len() ==> modified_valid(a, b, #[trigger] r.modified@[i])
    &&& forall|i: int| 0 <= i < r.renamed@.len() ==> renamed_valid(a, b, #[trigger] r.renamed@[i])
    &&& forall|i: int| 0 <= i < r.deleted@.len() ==> one_sided_valid(a, b, #[trigger] r.deleted@[i])
    &&& forall|i: int| 0 <= i < r.added@.len() ==> one_sided_valid(b, a, #[trigger] r.added@[i])
    &&& forall|k: Seq<char>|
        a.contains_key(k) && b.contains_key(k) && a[k] != b[k] ==> #[trigger] r.modified_keys().contains(k)
    &&& forall|k: Seq<char>|
        #[trigger] a.contains_key(k) && !b.contains_key(k) ==> r.renamed_old_keys().contains(k)
            || r.deleted_keys().contains(k)
    &&& forall|k: Seq<char>|
        #[trigger] b.contains_key(k) && !a.contains_key(k) ==> r.renamed_new_keys().contains(k)
            || r.added_keys().contains(k)
    &&& r.modified_keys().no_duplicates()
    &&& r.renamed_old_keys().no_duplicates()
    &&& r.renamed_new_keys().no_duplicates()
    &&& r.deleted_keys().no_duplicates()
    &&& r.added_keys().no_duplicates()
    &&& forall|k: Seq<char>| #[trigger] r.deleted_keys().contains(k) ==> !r.renamed_old_keys().contains(k)
    &&& forall|k: Seq<char>| #[trigger] r.added_keys().contains(k) ==> !r.renamed_new_keys().contains(k)
    &&& forall|i: int, j: int|
        0 <= i < r.deleted@.len() && 0 <= j < r.added@.len() ==> #[trigger] r.deleted@[i].value@
            != #[trigger] r.added@[j].value@
}

/// The position in `pool` of the first path of `b` whose value equals `v`.
#[verifier::loop_isolation(false)]
fn find_equal_value(b: &FlatMap, pool: &Vec<usize>, v: &Value) -> (r: Option<usize>)
    requires
        forall|p: int| 0 <= p < pool@.len() ==> pool@[p] < b.pairs().len(),
    ensures
        match r {
            Some(p) => p < pool@.len() && b.pairs()[pool@[p as int] as int].1 == v@,
            None => forall|p: int|
                0 <= p < pool@.len() ==> b.pairs()[pool@[p] as int].1 != v@,
        },
{
    let mut p: usize = 0;
    while p < pool.len()
        invariant
            p <= pool@.len(),
            forall|q: int| 0 <= q < p ==> b.pairs()[pool@[q] as int].1 != v@,
        decreases pool.len() - p,
    {
        if b.value(pool[p]).equals(v) {
            return Some(p);
        }
        p += 1;
    }
    None
}

/// The positions of the paths of `b` that `a` lacks, in `b`'s order.
#[verifier::loop_isolation(false)]
fn paths_only_in(b: &FlatMap, a: &FlatMap) -> (pool: Vec<usize>)
    requires
        a.wf(),
        b.wf(),
    ensures
        forall|p: int|
            0 <= p < pool@.len() ==> pool@[p] < b.pairs().len() && !a@.contains_key(
                b.pairs()[pool@[p] as int].0,
            ),
        forall|p: int, q: int| 0 <= p < pool@.len() && 0 <= q < pool@.len() && p != q ==> pool@[p] != pool@[q],
        forall|y: int|
            0 <= y < b.pairs().len() && !a@.contains_key(b.pairs()[y].0) ==> pool@.contains(
                y as usize,
            ),
{
    proof {
        a.lemma_view();
    }
    let mut pool: Vec<usize> = Vec::new();
    let mut j: usize = 0;
    while j < b.len()
        invariant
            j <= b.pairs().len(),
            forall|p: int|
                0 <= p < pool@.len() ==> pool@[p] < j && !a@.contains_key(
                    b.pairs()[pool@[p] as int].0,
                ),
            forall|p: int, q: int| 0 <= p < q < pool@.len() ==> pool@[p] < pool@[q],
            forall|y: int|
                0 <= y < j && !a@.contains_key(b.pairs()[y].0) ==> pool@.contains(y as usize),
        decreases b.pairs().len() - j,
    {
        let ghost old_pool = pool@;
        let found = a.find(b.key(j));
        if found.is_none() {
            pool.push(j);
            proof {
                assert(pool@[pool@.len() - 1] == j);
            }
        }
        proof {
            assert forall|y: int|
                0 <= y < j + 1 && !a@.contains_key(b.pairs()[y].0) implies pool@.contains(
                y as usize,
            ) by {
                if y < j {
                    let q = choose|q: int| 0 <= q < old_pool.len() && old_pool[q] == y as usize;
                    assert(pool@[q] == y as usize);
                } else {
                    match found {
                        Some(i) => {
                            assert(a@.contains_key(a.pairs()[i as int].0));
                        },
                        None => {
                            assert(pool@[pool@.len() - 1] == j);
                        },
                    }
                }
            }
        }
        j += 1;
    }
    pool
}

/// Classifies the paths of two flattened documents.
///
/// Paths only in `a` are taken in `a`'s order; each is paired with the first
/// path, in `b`'s order, that is only in `b`, holds an equal value and is not
/// yet paired. The contract leaves that choice open.
#[verifier::loop_isolation(false)]
#[verifier::rlimit(50)]
pub fn diff_flat(a: &FlatMap, b: &FlatMap) -> (r: DiffResult)
    requires
        a.wf(),
        b.wf(),
    ensures
        is_diff(a@, b@, r),
{
    proof {
        a.lemma_view();
        b.lemma_view();
    }
    let ghost pa = a.pairs();
    let ghost pb = b.pairs();
    // Positions of `b` fit in a `usize`.
    let _nb = b.len();
    let mut pool = paths_only_in(b, a);
    let mut modified: Vec<ModifiedKey> = Vec::new();
    let mut renamed: Vec<RenamedKey> = Vec::new();
    let mut deleted: Vec<DiffEntry> = Vec::new();
    let mut i: usize = 0;
    while i < a.len()
        invariant
            i <= pa.len(),
            forall|p: int|
                0 <= p < pool@.len() ==> pool@[p] < pb.len() && !a@.contains_key(
                    pb[pool@[p] as int].0,
                ),
            forall|p: int, q: int|
                0 <= p < pool@.len() && 0 <= q < pool@.len() && p != q ==> pool@[p] != pool@[q],
            forall|m: int| 0 <= m < modified@.len() ==> modified_valid(a@, b@, #[trigger] modified@[m]),
            forall|m: int| 0 <= m < renamed@.len() ==> renamed_valid(a@, b@, #[trigger] renamed@[m]),
            forall|m: int| 0 <= m < deleted@.len() ==> one_sided_valid(a@, b@, #[trigger] deleted@[m]),
            forall|m: int|
                0 <= m < modified@.len() ==> exists|x: int|
                    0 <= x < i && pa[x].0 == (#[trigger] modified@[m]).key@,
            forall|m: int|
                0 <= m < renamed@.len() ==> exists|x: int|
                    0 <= x < i && pa[x].0 == (#[trigger] renamed@[m]).old_key@,
            forall|m: int|
                0 <= m < deleted@.len() ==> exists|x: int|
                    0 <= x < i && pa[x].0 == (#[trigger] deleted@[m]).key@,
            modified_key_seq(modified@).no_duplicates(),
            old_key_seq(renamed@).no_duplicates(),
            new_key_seq(renamed@).no_duplicates(),
            entry_keys(deleted@).no_duplicates(),
            forall|k: Seq<char>|
                #[trigger] entry_keys(deleted@).contains(k) ==> !old_key_seq(renamed@).contains(k),
            forall|p: int, m: int|
                0 <= p < pool@.len() && 0 <= m < renamed@.len() ==> pb[#[trigger] pool@[p] as int].0
                    != (#[trigger] renamed@[m]).new_key@,
            forall|y: int|
                0 <= y < pb.len() && !a@.contains_key(pb[y].0) ==> pool@.contains(y as usize)
                    || new_key_seq(renamed@).contains(pb[y].0),
            forall|x: int|
                0 <= x < i && !b@.contains_key(pa[x].0) ==> old_key_seq(renamed@).contains(pa[x].0)
                    || entry_keys(deleted@).contains(pa[x].0),
            forall|x: int|
                0 <= x < i && b@.contains_key(pa[x].0) && pa[x].1 != b@[pa[x].0]
                    ==> modified_key_seq(modified@).contains(pa[x].0),
            forall|d: int, p: int|
                0 <= d < deleted@.len() && 0 <= p < pool@.len() ==> (#[trigger] deleted@[d]).value@
                    != pb[#[trigger] pool@[p] as int].1,
        decreases pa.len() - i,
    {
        let key = a.key(i);
        let va = a.value(i);
        let ghost k = key@;
        let ghost mod0 = modified@;
        let ghost ren0 = renamed@;
        let ghost del0 = deleted@;
        proof {
            assert(a@[k] == va@);
        }
        match b.find(key) {
            Some(j) => {
                let vb = b.value(j);
                proof {
                    assert(b@[k] == vb@);
                }
                if !va.equals(vb) {
                    let ghost before = modified@;
                    modified.push(
                        ModifiedKey { key: key.clone(), old_value: va.duplicate(), new_value: vb.duplicate() },
                    );
                    proof {
                        assert(modified_key_seq(modified@) =~= modified_key_seq(before).push(k));
                        assert(modified@[modified@.len() - 1].key@ == pa[i as int].0);
                        assert forall|m: int| 0 <= m < before.len() implies before[m].key@ != k by {
                            let x = choose|x: int| 0 <= x < i && pa[x].0 == before[m].key@;
                            assert(pa[x].0 != pa[i as int].0);
                        }
                        assert(modified_key_seq(modified@)[modified@.len() - 1] == k);
                    }
                }
            },
            None => {
                proof {
                    assert(!b@.contains_key(k));
                }
                match find_equal_value(b, &pool, va) {
                    Some(p) => {
                        let ghost old_pool = pool@;
                        let ghost before = renamed@;
                        let j = pool.remove(p);
                        let new_key = b.key(j);
                        proof {
                            assert(old_pool[p as int] == j);
                            assert(b@[new_key@] == pb[j as int].1);
                        }
                        renamed.push(
                            RenamedKey { old_key: key.clone(), new_key: new_key.clone(), value: va.duplicate() },
                        );
                        proof {
                            assert(old_key_seq(renamed@) =~= old_key_seq(before).push(k));
                            assert(new_key_seq(renamed@) =~= new_key_seq(before).push(pb[j as int].0));
                            assert(renamed@[renamed@.len() - 1].old_key@ == pa[i as int].0);
                            assert forall|m: int| 0 <= m < before.len() implies before[m].old_key@ != k by {
                                let x = choose|x: int| 0 <= x < i && pa[x].0 == before[m].old_key@;
                                assert(pa[x].0 != pa[i as int].0);
                            }
                            assert forall|m: int| 0 <= m < before.len() implies before[m].new_key@
                                != pb[j as int].0 by {
                                assert(old_pool[p as int] == j);
                            }
                            assert forall|kk: Seq<char>| #[trigger] entry_keys(deleted@).contains(kk)
                                implies !old_key_seq(renamed@).contains(kk) by {
                                let m = choose|m: int| 0 <= m < deleted@.len() && entry_keys(deleted@)[m] == kk;
                                let x = choose|x: int| 0 <= x < i && pa[x].0 == deleted@[m].key@;
                                assert(pa[x].0 != pa[i as int].0);
                            }
                            assert forall|q: int, m: int|
                                0 <= q < pool@.len() && 0 <= m < renamed@.len() implies pb[#[trigger] pool@[q] as int].0
                                    != (#[trigger] renamed@[m]).new_key@ by {
                                let oq = if q < p { q } else { q + 1 };
                                assert(pool@[q] == old_pool[oq]);
                                if m == renamed@.len() - 1 {
                                    assert(old_pool[oq] != old_pool[p as int]);
                                    assert(pb[old_pool[oq] as int].0 != pb[j as int].0);
                                }
                            }
                            assert forall|y: int|
                                0 <= y < pb.len() && !a@.contains_key(pb[y].0) implies pool@.contains(y as usize)
                                    || new_key_seq(renamed@).contains(pb[y].0) by {
                                if new_key_seq(before).contains(pb[y].0) {
                                    let m = choose|m: int| 0 <= m < before.len() && new_key_seq(before)[m] == pb[y].0;
                                    assert(new_key_seq(renamed@)[m] == pb[y].0);
                                } else {
                                    let q = choose|q: int| 0 <= q < old_pool.len() && old_pool[q] == y as usize;
                                    if q < p {
                                        assert(pool@[q] == y as usize);
                                    } else if q > p {
                                        assert(pool@[q - 1] == y as usize);
                                    } else {
                                        assert(new_key_seq(renamed@)[renamed@.len() - 1] == pb[y].0);
                                    }
                                }
                            }
                            assert forall|d: int, q: int|
                                0 <= d < deleted@.len() && 0 <= q < pool@.len() implies (#[trigger] deleted@[d]).value@
                                    != pb[#[trigger] pool@[q] as int].1 by {
                                let oq = if q < p { q } else { q + 1 };
                                assert(pool@[q] == old_pool[oq]);
                            }
                            assert forall|q: int, s: int|
                                0 <= q < pool@.len() && 0 <= s < pool@.len() && q != s implies pool@[q] != pool@[s] by {
                                let oq = if q < p { q } else { q + 1 };
                                let os = if s < p { s } else { s + 1 };
                                assert(pool@[q] == old_pool[oq]);
                                assert(pool@[s] == old_pool[os]);
                            }
                            assert(old_key_seq(renamed@)[renamed@.len() - 1] == k);
                            assert(modified@ == mod0);
                        }
                    },
                    None => {
                        let ghost before = deleted@;
                        deleted.push(DiffEntry { key: key.clone(), value: va.duplicate() });
                        proof {
                            assert(entry_keys(deleted@) =~= entry_keys(before).push(k));
                            assert(deleted@[deleted@.len() - 1].key@ == pa[i as int].0);
                            assert forall|m: int| 0 <= m < before.len() implies before[m].key@ != k by {
                                let x = choose|x: int| 0 <= x < i && pa[x].0 == before[m].key@;
                                assert(pa[x].0 != pa[i as int].0);
                            }
                            assert forall|kk: Seq<char>| #[trigger] entry_keys(deleted@).contains(kk)
                                implies !old_key_seq(renamed@).contains(kk) by {
                                if kk != k {
                                    let m = choose|m: int| 0 <= m < deleted@.len() && entry_keys(deleted@)[m] == kk;
                                    assert(entry_keys(before)[m] == kk);
                                    assert(entry_keys(before).contains(kk));
                                }
                            }
                            assert(!old_key_seq(renamed@).contains(k)) by {
                                if old_key_seq(renamed@).contains(k) {
                                    let m = choose|m: int| 0 <= m < renamed@.len() && old_key_seq(renamed@)[m] == k;
                                    let x = choose|x: int| 0 <= x < i && pa[x].0 == renamed@[m].old_key@;
                                    assert(pa[x].0 != pa[i as int].0);
                                }
                            }
                            assert(entry_keys(deleted@)[deleted@.len() - 1] == k);
                            assert(modified@ == mod0);
                        }
                    },
                }
                proof {
                    assert(modified@ == mod0);
                    assert(!b@.contains_key(k));
                }
            },
        }
        proof {
            assert(b@.contains_key(k) && a@[k] != b@[k] ==> modified_key_seq(modified@).contains(k));
            assert(!b@.contains_key(k) ==> old_key_seq(renamed@).contains(k) || entry_keys(deleted@).contains(k));
            assert forall|x: int|
                0 <= x < i + 1 && !b@.contains_key(pa[x].0) implies old_key_seq(renamed@).contains(pa[x].0)
                    || entry_keys(deleted@).contains(pa[x].0) by {
                if x < i {
                    if old_key_seq(ren0).contains(pa[x].0) {
                        let m = choose|m: int| 0 <= m < ren0.len() && old_key_seq(ren0)[m] == pa[x].0;
                        assert(old_key_seq(renamed@)[m] == pa[x].0);
                    } else {
                        let m = choose|m: int| 0 <= m < del0.len() && entry_keys(del0)[m] == pa[x].0;
                        assert(entry_keys(deleted@)[m] == pa[x].0);
                    }
                }
            }
            assert forall|x: int|
                0 <= x < i + 1 && b@.contains_key(pa[x].0) && pa[x].1 != b@[pa[x].0]
                    implies modified_key_seq(modified@).contains(pa[x].0) by {
                if x < i {
                    let m = choose|m: int| 0 <= m < mod0.len() && modified_key_seq(mod0)[m] == pa[x].0;
                    assert(modified_key_seq(modified@)[m] == pa[x].0);
                }
            }
        }
        i += 1;
    }
    let mut added: Vec<DiffEntry> = Vec::new();
    let mut p: usize = 0;
    while p < pool.len()
        invariant
            p <= pool@.len(),
            added@.len() == p,
            forall|t: int|
                0 <= t < p ==> (#[trigger] added@[t]).key@ == pb[pool@[t] as int].0 && added@[t].value@
                    == pb[pool@[t] as int].1,
        decreases pool@.len() - p,
    {
        let j = pool[p];
        added.push(DiffEntry { key: b.key(j).clone(), value: b.value(j).duplicate() });
        p += 1;
    }
    let r = DiffResult { renamed, modified, added, deleted };
    proof {
        assert forall|t: int| 0 <= t < r.added@.len() implies one_sided_valid(b@, a@, #[trigger] r.added@[t]) by {
            assert(b@[pb[pool@[t] as int].0] == pb[pool@[t] as int].1);
        }
        assert forall|k: Seq<char>|
            a@.contains_key(k) && b@.contains_key(k) && a@[k] != b@[k] implies #[trigger] r.modified_keys().contains(k) by {
            let x = choose|x: int| 0 <= x < pa.len() && pa[x].0 == k;
            assert(a@[pa[x].0] == pa[x].1);
        }
        assert forall|k: Seq<char>|
            #[trigger] a@.contains_key(k) && !b@.contains_key(k) implies r.renamed_old_keys().contains(k)
                || r.deleted_keys().contains(k) by {
            let x = choose|x: int| 0 <= x < pa.len() && pa[x].0 == k;
        }
        assert forall|k: Seq<char>|
            #[trigger] b@.contains_key(k) && !a@.contains_key(k) implies r.renamed_new_keys().contains(k)
                || r.added_keys().contains(k) by {
            let y = choose|y: int| 0 <= y < pb.len() && pb[y].0 == k;
            if pool@.contains(y as usize) {
                let q = choose|q: int| 0 <= q < pool@.len() && pool@[q] == y as usize;
                assert(r.added_keys()[q] == k);
            }
        }
        assert forall|s: int, t: int|
            0 <= s < r.added_keys().len() && 0 <= t < r.added_keys().len() && s != t implies r.added_keys()[s]
                != r.added_keys()[t] by {
            assert(pool@[s] != pool@[t]);
        }
        assert forall|k: Seq<char>| #[trigger] r.added_keys().contains(k) implies !r.renamed_new_keys().contains(k) by {
            let q = choose|q: int| 0 <= q < r.added@.len() && r.added_keys()[q] == k;
            if r.renamed_new_keys().contains(k) {
                let m = choose|m: int| 0 <= m < r.renamed@.len() && r.renamed_new_keys()[m] == k;
                assert(pb[pool@[q] as int].0 != r.renamed@[m].new_key@);
            }
        }
        assert forall|d: int, t: int|
            0 <= d < r.deleted@.len() && 0 <= t < r.added@.len() implies #[trigger] r.deleted@[d].value@
                != #[trigger] r.added@[t].value@ by {
            assert(r.deleted@[d].value@ != pb[pool@[t] as int].1);
        }
    }
    r
}

/// Compares two documents path by path.
pub fn diff(a: &Value, b: &Value) -> (r: DiffResult)
    ensures
        is_diff(flat_of(a@), flat_of(b@), r),
{
    let fa = flatten(a);
    let fb = flatten(b);
    diff_flat(&fa, &fb)
}

/// The paths that both maps hold with equal values.
pub open spec fn unchanged_keys(a: Map<Seq<char>, Json>, b: Map<Seq<char>, Json>) -> Set<Seq<char>> {
    Set::new(|k: Seq<char>| a.contains_key(k) && b.contains_key(k) && a[k] == b[k])
}

/// Comparing a document with itself reports no modified, renamed, added or
/// deleted path.
pub proof fn lemma_diff_self_empty(d: Json, r: DiffResult)
    requires
        is_diff(flat_of(d), flat_of(d), r),
    ensures
        r.modified@.len() == 0,
        r.renamed@.len() == 0,
        r.added@.len() == 0,
        r.deleted@.len() == 0,
{
    let m = flat_of(d);
    if r.modified@.len() > 0 {
        assert(modified_valid(m, m, r.modified@[0]));
    }
    if r.renamed@.len() > 0 {
        assert(renamed_valid(m, m, r.renamed@[0]));
    }
    if r.added@.len() > 0 {
        assert(one_sided_valid(m, m, r.added@[0]));
    }
    if r.deleted@.len() > 0 {
        assert(one_sided_valid(m, m, r.deleted@[0]));
    }
}

/// Every path of the first document is exactly one of: modified, renamed from,
/// deleted, or unchanged; every path of the second is exactly one of:
/// modified, renamed to, added, or unchanged.
pub proof fn lemma_diff_partition(a: Json, b: Json, r: DiffResult)
    requires
        is_diff(flat_of(a), flat_of(b), r),
    ensures
        flat_of(a).dom() == r.modified_keys().to_set() + r.renamed_old_keys().to_set()
            + r.deleted_keys().to_set() + unchanged_keys(flat_of(a), flat_of(b)),
        flat_of(b).dom() == r.modified_keys().to_set() + r.renamed_new_keys().to_set()
            + r.added_keys().to_set() + unchanged_keys(flat_of(a), flat_of(b)),
        r.modified_keys().to_set().disjoint(r.renamed_old_keys().to_set()),
        r.modified_keys().to_set().disjoint(r.deleted_keys().to_set()),
        r.modified_keys().to_set().disjoint(unchanged_keys(flat_of(a), flat_of(b))),
        r.renamed_old_keys().to_set().disjoint(r.deleted_keys().to_set()),
        r.renamed_old_keys().to_set().disjoint(unchanged_keys(flat_of(a), flat_of(b))),
        r.deleted_keys().to_set().disjoint(unchanged_keys(flat_of(a), flat_of(b))),
        r.modified_keys().to_set().disjoint(r.renamed_new_keys().to_set()),
        r.modified_keys().to_set().disjoint(r.added_keys().to_set()),
        r.renamed_new_keys().to_set().disjoint(r.added_keys().to_set()),
        r.renamed_new_keys().to_set().disjoint(unchanged_keys(flat_of(a), flat_of(b))),
        r.added_keys().to_set().disjoint(unchanged_keys(flat_of(a), flat_of(b))),
{
    let fa = flat_of(a);
    let fb = flat_of(b);
    assert forall|k: Seq<char>| #[trigger] r.modified_keys().contains(k) implies fa.contains_key(k)
        && fb.contains_key(k) && fa[k] != fb[k] by {
        let i = choose|i: int| 0 <= i < r.modified_keys().len() && r.modified_keys()[i] == k;
        assert(modified_valid(fa, fb, r.modified@[i]));
    }
    assert forall|k: Seq<char>| #[trigger] r.renamed_old_keys().contains(k) implies fa.contains_key(k)
        && !fb.contains_key(k) by {
        let i = choose|i: int| 0 <= i < r.renamed_old_keys().len() && r.renamed_old_keys()[i] == k;
        assert(renamed_valid(fa, fb, r.renamed@[i]));
    }
    assert forall|k: Seq<char>| #[trigger] r.renamed_new_keys().contains(k) implies fb.contains_key(k)
        && !fa.contains_key(k) by {
        let i = choose|i: int| 0 <= i < r.renamed_new_keys().len() && r.renamed_new_keys()[i] == k;
        assert(renamed_valid(fa, fb, r.renamed@[i]));
    }
    assert forall|k: Seq<char>| #[trigger] r.deleted_keys().contains(k) implies fa.contains_key(k)
        && !fb.contains_key(k) by {
        let i = choose|i: int| 0 <= i < r.deleted_keys().len() && r.deleted_keys()[i] == k;
        assert(one_sided_valid(fa, fb, r.deleted@[i]));
    }
    assert forall|k: Seq<char>| #[trigger] r.added_keys().contains(k) implies fb.contains_key(k)
        && !fa.contains_key(k) by {
        let i = choose|i: int| 0 <= i < r.added_keys().len() && r.added_keys()[i] == k;
        assert(one_sided_valid(fb, fa, r.added@[i]));
    }
    assert(fa.dom() =~= r.modified_keys().to_set() + r.renamed_old_keys().to_set()
        + r.deleted_keys().to_set() + unchanged_keys(fa, fb));
    assert(fb.dom() =~= r.modified_keys().to_set() + r.renamed_new_keys().to_set()
        + r.added_keys().to_set() + unchanged_keys(fa, fb));
}

} // verus!
