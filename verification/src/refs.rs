//! Tables of named pointers to commits: branches and tags.

use vstd::prelude::*;
use crate::types::CommitHash;

verus! {

/// One named pointer.
#[derive(Debug)]
pub struct RefEntry {
    pub name: String,
    pub target: CommitHash,
}

/// A table as contracts see it: names and targets, in order of creation.
pub type RefTable = Seq<(Seq<char>, CommitHash)>;

/// The table that the entries stand for.
pub open spec fn ref_table(refs: Seq<RefEntry>) -> RefTable {
    refs.map_values(|e: RefEntry| (e.name@, e.target))
}

/// The table has an entry of that name.
pub open spec fn has_name(t: RefTable, name: Seq<char>) -> bool {
    exists|k: int| 0 <= k < t.len() && (#[trigger] t[k]).0 == name
}

/// The place of the entry of that name, where there is one.
pub open spec fn index_of_name(t: RefTable, name: Seq<char>) -> int {
    choose|k: int| 0 <= k < t.len() && (#[trigger] t[k]).0 == name
}

/// The commit that `name` points to, where the table has the name.
pub open spec fn target_of(t: RefTable, name: Seq<char>) -> CommitHash {
    t[index_of_name(t, name)].1
}

/// No name occurs twice.
pub open spec fn distinct_names(t: RefTable) -> bool {
    forall|i: int, j: int| 0 <= i < j < t.len() ==> (#[trigger] t[i]).0 != (#[trigger] t[j]).0
}

/// In a table of distinct names, the place of a name is the one place that holds it.
pub proof fn lemma_index_unique(t: RefTable, name: Seq<char>, k: int)
    requires
        distinct_names(t),
        0 <= k < t.len(),
        t[k].0 == name,
    ensures
        has_name(t, name),
        index_of_name(t, name) == k,
        target_of(t, name) == t[k].1,
{
    let c = index_of_name(t, name);
    if c < k {
        assert(t[c].0 != t[k].0);
    } else if k < c {
        assert(t[k].0 != t[c].0);
    }
}

/// A branch or tag resolves to the commit it was created on.
pub proof fn law_created_name_resolves(t: RefTable, name: Seq<char>, target: CommitHash)
    requires
        distinct_names(t),
        !has_name(t, name),
    ensures
        distinct_names(t.push((name, target))),
        has_name(t.push((name, target)), name),
        target_of(t.push((name, target)), name) == target,
{
    let u = t.push((name, target));
    assert forall|i: int, j: int| 0 <= i < j < u.len() implies (#[trigger] u[i]).0 != (#[trigger] u[j]).0 by {
        if j == t.len() {
            assert(t[i].0 != name);
        } else {
            assert(t[i].0 != t[j].0);
        }
    }
    lemma_index_unique(u, name, t.len() as int);
}

/// A branch resolves to the commit it was moved to.
pub proof fn law_moved_name_resolves(t: RefTable, name: Seq<char>, target: CommitHash)
    requires
        distinct_names(t),
        has_name(t, name),
    ensures
        distinct_names(t.update(index_of_name(t, name), (name, target))),
        has_name(t.update(index_of_name(t, name), (name, target)), name),
        target_of(t.update(index_of_name(t, name), (name, target)), name) == target,
{
    let k = index_of_name(t, name);
    let u = t.update(k, (name, target));
    assert forall|i: int, j: int| 0 <= i < j < u.len() implies (#[trigger] u[i]).0 != (#[trigger] u[j]).0 by {
        assert(t[i].0 != t[j].0);
    }
    lemma_index_unique(u, name, k);
}

/// Once a branch or tag is removed, its name resolves to nothing.
pub proof fn law_removed_name_is_gone(t: RefTable, name: Seq<char>)
    requires
        distinct_names(t),
        has_name(t, name),
    ensures
        distinct_names(t.remove(index_of_name(t, name))),
        !has_name(t.remove(index_of_name(t, name)), name),
{
    let k = index_of_name(t, name);
    let u = t.remove(k);
    assert forall|i: int, j: int| 0 <= i < j < u.len() implies (#[trigger] u[i]).0 != (#[trigger] u[j]).0 by {
        let a = if i < k { i } else { i + 1 };
        let b = if j < k { j } else { j + 1 };
        assert(u[i] == t[a]);
        assert(u[j] == t[b]);
        assert(t[a].0 != t[b].0);
    }
    assert forall|i: int| 0 <= i < u.len() implies (#[trigger] u[i]).0 != name by {
        let a = if i < k { i } else { i + 1 };
        assert(u[i] == t[a]);
        if a < k {
            assert(t[a].0 != t[k].0);
        } else {
            assert(t[k].0 != t[a].0);
        }
    }
}

/// Creating, moving or removing one name leaves every other name on its commit:
/// a name resolves to the same commit until it is itself moved or removed.
pub proof fn law_other_names_stay(t: RefTable, name: Seq<char>, target: CommitHash, other: Seq<char>)
    requires
        distinct_names(t),
        has_name(t, other),
        other != name,
    ensures
        !has_name(t, name) ==> has_name(t.push((name, target)), other) && target_of(
            t.push((name, target)),
            other,
        ) == target_of(t, other),
        has_name(t, name) ==> has_name(t.update(index_of_name(t, name), (name, target)), other)
            && target_of(t.update(index_of_name(t, name), (name, target)), other) == target_of(
            t,
            other,
        ),
        has_name(t, name) ==> has_name(t.remove(index_of_name(t, name)), other) && target_of(
            t.remove(index_of_name(t, name)),
            other,
        ) == target_of(t, other),
{
    let o = index_of_name(t, other);
    if !has_name(t, name) {
        law_created_name_resolves(t, name, target);
        let u = t.push((name, target));
        assert(u[o] == t[o]);
        lemma_index_unique(u, other, o);
    } else {
        let k = index_of_name(t, name);
        law_moved_name_resolves(t, name, target);
        let u = t.update(k, (name, target));
        assert(u[o] == t[o]);
        lemma_index_unique(u, other, o);
        law_removed_name_is_gone(t, name);
        let w = t.remove(k);
        let p = if o < k { o } else { o - 1 };
        assert(w[p] == t[o]);
        lemma_index_unique(w, other, p);
    }
}

/// The place of `name` in the table, if it is there.
pub fn lookup_ref(refs: &Vec<RefEntry>, name: &String) -> (r: Option<usize>)
    ensures
        match r {
            Some(k) => k < refs.len() && ref_table(refs@)[k as int].0 == name@,
            None => !has_name(ref_table(refs@), name@),
        },
{
    let mut k: usize = 0;
    while k < refs.len()
        invariant
            k <= refs.len(),
            forall|j: int| 0 <= j < k ==> (#[trigger] ref_table(refs@)[j]).0 != name@,
        decreases refs.len() - k,
    {
        if refs[k].name == *name {
            return Some(k);
        }
        k += 1;
    }
    None
}

/// Some entry of the table has this name and this target.
pub open spec fn points_at(t: RefTable, name: Seq<char>, target: CommitHash) -> bool {
    exists|k: int| 0 <= k < t.len() && #[trigger] t[k] == (name, target)
}

/// `names` holds exactly the names of the table that point to `target`, in the
/// table's order.
pub open spec fn names_match(t: RefTable, names: Seq<String>, target: CommitHash) -> bool {
    &&& forall|i: int| 0 <= i < names.len() ==> points_at(t, (#[trigger] names[i])@, target)
    &&& forall|k: int|
        0 <= k < t.len() && (#[trigger] t[k]).1 == target ==> exists|i: int|
            0 <= i < names.len() && (#[trigger] names[i])@ == t[k].0
    &&& forall|i: int, j: int|
        0 <= i < j < names.len() ==> index_of_name(t, (#[trigger] names[i])@) < index_of_name(
            t,
            (#[trigger] names[j])@,
        )
}

/// The names of the table, in its order.
pub fn names_of(refs: &Vec<RefEntry>) -> (r: Vec<String>)
    ensures
        r@.len() == refs@.len(),
        forall|k: int| 0 <= k < refs@.len() ==> (#[trigger] r@[k])@ == ref_table(refs@)[k].0,
{
    let mut out: Vec<String> = Vec::new();
    let mut k: usize = 0;
    while k < refs.len()
        invariant
            k <= refs@.len(),
            out@.len() == k,
            forall|j: int| 0 <= j < k ==> (#[trigger] out@[j])@ == ref_table(refs@)[j].0,
        decreases refs@.len() - k,
    {
        out.push(refs[k].name.clone());
        k += 1;
    }
    out
}

/// The names that point to `target`, in the table's order.
pub fn names_pointing_at(refs: &Vec<RefEntry>, target: &CommitHash) -> (r: Vec<String>)
    requires
        distinct_names(ref_table(refs@)),
    ensures
        names_match(ref_table(refs@), r@, *target),
{
    let ghost t = ref_table(refs@);
    let mut out: Vec<String> = Vec::new();
    let ghost mut places: Seq<int> = Seq::empty();
    let mut k: usize = 0;
    while k < refs.len()
        invariant
            t == ref_table(refs@),
            distinct_names(t),
            k <= refs@.len(),
            places.len() == out@.len(),
            forall|i: int|
                0 <= i < out@.len() ==> 0 <= (#[trigger] places[i]) < k && t[places[i]] == (
                    out@[i]@,
                    *target,
                ),
            forall|i: int, j: int| 0 <= i < j < out@.len() ==> places[i] < places[j],
            forall|j: int|
                0 <= j < k && (#[trigger] t[j]).1 == *target ==> exists|i: int|
                    0 <= i < out@.len() && (#[trigger] out@[i])@ == t[j].0,
        decreases refs@.len() - k,
    {
        if refs[k].target.same(target) {
            let ghost before = out@;
            out.push(refs[k].name.clone());
            proof {
                places = places.push(k as int);
                assert(out@[before.len() as int]@ == t[k as int].0);
                assert forall|j: int| 0 <= j < k + 1 && (#[trigger] t[j]).1 == *target implies exists|
                    i: int,
                | 0 <= i < out@.len() && (#[trigger] out@[i])@ == t[j].0 by {
                    if j < k {
                        let i = choose|i: int| 0 <= i < before.len() && (#[trigger] before[i])@ == t[j].0;
                        assert(out@[i] == before[i]);
                    }
                }
            }
        }
        k += 1;
    }
    proof {
        assert forall|i: int, j: int| 0 <= i < j < out@.len() implies index_of_name(
            t,
            (#[trigger] out@[i])@,
        ) < index_of_name(t, (#[trigger] out@[j])@) by {
            lemma_index_unique(t, out@[i]@, places[i]);
            lemma_index_unique(t, out@[j]@, places[j]);
        }
        assert forall|i: int| 0 <= i < out@.len() implies points_at(
            t,
            (#[trigger] out@[i])@,
            *target,
        ) by {
            assert(t[places[i]] == (out@[i]@, *target));
        }
    }
    out
}

} // verus!
