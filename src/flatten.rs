//! Flattening a nested document into a map from dotted paths to leaves.
use vstd::prelude::*;
use vstd::string::*;

use crate::flat_map::{keys_distinct, FlatMap};
use crate::value::{lemma_model_members, model, model_members, Json, Value};

verus! {

/// The path of member `key` inside the node at `prefix`. Members of the root
/// (whose path is empty) go by their bare name.
pub open spec fn join_path(prefix: Seq<char>, key: Seq<char>) -> Seq<char> {
    if prefix.len() == 0 {
        key
    } else {
        prefix + seq!['.'] + key
    }
}

/// The leaves below `v`, which stands at path `prefix`. An object is descended
/// into, member by member, a later member overriding an earlier one on the same
/// path; every other value is one leaf. An empty object has no leaves.
pub open spec fn flat(prefix: Seq<char>, v: Json) -> Map<Seq<char>, Json>
    decreases v,
{
    match v {
        Json::Object(members) => flat_members(prefix, members),
        _ => map![prefix => v],
    }
}

pub open spec fn flat_members(prefix: Seq<char>, members: Seq<(Seq<char>, Json)>) -> Map<
    Seq<char>,
    Json,
>
    decreases members,
{
    if members.len() == 0 {
        Map::empty()
    } else {
        let last = members[members.len() - 1];
        flat_members(prefix, members.subrange(0, members.len() - 1)).union_prefer_right(
            flat(join_path(prefix, last.0), last.1),
        )
    }
}

/// The flattening of a whole document: its root stands at the empty path.
pub open spec fn flat_of(doc: Json) -> Map<Seq<char>, Json> {
    flat(Seq::empty(), doc)
}

/// A mapping whose members are all leaves, with distinct names, flattens to
/// one entry per member, under the member's bare name, holding its value.
pub proof fn lemma_flat_shallow(members: Seq<(Seq<char>, Json)>)
    requires
        forall|i: int| 0 <= i < members.len() ==> !(#[trigger] members[i].1 is Object),
        keys_distinct(members),
    ensures
        forall|k: Seq<char>|
            #[trigger] flat_of(Json::Object(members)).contains_key(k) <==> exists|i: int|
                0 <= i < members.len() && members[i].0 == k,
        forall|i: int|
            0 <= i < members.len() ==> flat_of(Json::Object(members))[#[trigger] members[i].0]
                == members[i].1,
    decreases members.len(),
{
    if members.len() > 0 {
        let init = members.subrange(0, members.len() - 1);
        let last = members[members.len() - 1];
        assert forall|i: int, j: int|
            0 <= i < init.len() && 0 <= j < init.len() && i != j implies #[trigger] init[i].0
            != #[trigger] init[j].0 by {
            assert(members[i].0 != members[j].0);
        }
        assert forall|i: int| 0 <= i < init.len() implies !(#[trigger] init[i].1 is Object) by {
            assert(!(members[i].1 is Object));
        }
        lemma_flat_shallow(init);
        assert(join_path(Seq::empty(), last.0) == last.0);
        assert(flat(last.0, last.1) == map![last.0 => last.1]);
        assert forall|k: Seq<char>|
            #[trigger] flat_of(Json::Object(members)).contains_key(k) <==> exists|i: int|
                0 <= i < members.len() && members[i].0 == k by {
            if flat_of(Json::Object(init)).contains_key(k) {
                let i = choose|i: int| 0 <= i < init.len() && init[i].0 == k;
                assert(members[i].0 == k);
            }
            if exists|i: int| 0 <= i < members.len() && members[i].0 == k {
                let i = choose|i: int| 0 <= i < members.len() && members[i].0 == k;
                if i < members.len() - 1 {
                    assert(init[i].0 == k);
                }
            }
        }
        assert forall|i: int| 0 <= i < members.len() implies flat_of(Json::Object(members))[
            #[trigger] members[i].0] == members[i].1 by {
            if i < members.len() - 1 {
                assert(init[i] == members[i]);
                assert(members[i].0 != last.0);
            }
        }
    }
}

fn join_key(prefix: &String, key: &String) -> (r: String)
    ensures
        r@ == join_path(prefix@, key@),
{
    if prefix.as_str().is_empty() {
        key.clone()
    } else {
        let dotted = prefix.clone().concat(".");
        proof {
            reveal_strlit(".");
        }
        dotted.concat(key.as_str())
    }
}

#[verifier::loop_isolation(false)]
fn flatten_into(prefix: &String, v: &Value, out: &mut FlatMap)
    requires
        old(out).wf(),
    ensures
        final(out).wf(),
        final(out)@ == old(out)@.union_prefer_right(flat(prefix@, v@)),
    decreases v,
{
    match v {
        Value::Object(members) => {
            let ghost start = out@;
            let ghost ms = model_members(members@);
            proof {
                lemma_model_members(members@);
                assert(ms.subrange(0, 0) =~= Seq::<(Seq<char>, Json)>::empty());
                assert(start.union_prefer_right(flat_members(prefix@, ms.subrange(0, 0)))
                    =~= start);
            }
            let mut i: usize = 0;
            while i < members.len()
                invariant
                    i <= members.len(),
                    out.wf(),
                    out@ == start.union_prefer_right(flat_members(prefix@, ms.subrange(0, i as int))),
                decreases members.len() - i,
            {
                let path = join_key(prefix, &members[i].0);
                let ghost before = out@;
                flatten_into(&path, &members[i].1, out);
                proof {
                    lemma_model_members(members@);
                    let next = ms.subrange(0, i + 1);
                    assert(next.subrange(0, i as int) =~= ms.subrange(0, i as int));
                    assert(next[i as int] == (members@[i as int].0@, model(members@[i as int].1)));
                    let part = flat(path@, members@[i as int].1@);
                    assert(out@ =~= start.union_prefer_right(
                        flat_members(prefix@, ms.subrange(0, i as int)).union_prefer_right(part),
                    ));
                }
                i += 1;
            }
            proof {
                assert(ms.subrange(0, members.len() as int) =~= ms);
            }
        },
        _ => {
            let leaf = v.duplicate();
            let ghost before = out@;
            out.insert(prefix.clone(), leaf);
            proof {
                assert(out@ =~= before.union_prefer_right(flat(prefix@, v@)));
            }
        },
    }
}

/// Flattens `doc` into a map from dotted paths to leaf values.
pub fn flatten(doc: &Value) -> (r: FlatMap)
    ensures
        r.wf(),
        r@ == flat_of(doc@),
{
    let mut out = FlatMap::new();
    flatten_into(&String::new(), doc, &mut out);
    proof {
        assert(out@ =~= flat_of(doc@));
    }
    out
}

} // verus!
