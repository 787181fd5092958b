//! What holds across operations, stated over the same tables and graphs that
//! the operations' own contracts use.

use vstd::prelude::*;
use crate::types::CommitHash;
use crate::semantic::SemanticCommit;
use crate::graph::{
    CommitContent, CommitRecord, Commits, dag_ok, distinct_hashes, has_first_parent, has_hash,
    index_of_hash, lemma_index_of_hash, lemma_lineage_reaches, lemma_reaches_bounds, lineage,
    linear_above, listed_ancestors, path_between, path_steps, reaches,
};
use crate::ancestry::{
    descends, is_merge_base, merge_base_of, lemma_descends_bound, lemma_linear_descent,
    lemma_merge_base_exists, lemma_merge_base_unique, lemma_reaches_descends,
};
use crate::refs::{
    RefTable, distinct_names, has_name, index_of_name, lemma_index_unique, target_of,
};
use crate::branches::after_create_branch;
use crate::repository::Repository;

verus! {

/// Every commit of a lineage lies before the ones listed ahead of it.
pub proof fn lemma_lineage_decreasing(cs: Commits, i: int, j: int, k: int)
    requires
        0 <= j < k < lineage(cs, i).len(),
    ensures
        lineage(cs, i)[k] < lineage(cs, i)[j],
    decreases i,
{
    let l = lineage(cs, i);
    let p = cs[i].parents@[0] as int;
    let r = lineage(cs, p);
    assert(has_first_parent(cs, i));
    assert(l == seq![i] + r);
    assert(l[k] == r[k - 1]);
    if j == 0 {
        assert(r.contains(r[k - 1]));
        lemma_lineage_reaches(cs, p, r[k - 1]);
        lemma_reaches_bounds(cs, p, r[k - 1]);
    } else {
        assert(l[j] == r[j - 1]);
        lemma_lineage_decreasing(cs, p, j - 1, k - 1);
    }
}

/// Every lineage ends at the initial commit.
pub proof fn lemma_lineage_ends_at_root(cs: Commits, i: int)
    requires
        dag_ok(cs),
        0 <= i < cs.len(),
    ensures
        lineage(cs, i).last() == 0,
    decreases i,
{
    if i > 0 {
        let p = cs[i].parents@[0] as int;
        assert(has_first_parent(cs, i));
        lemma_lineage_ends_at_root(cs, p);
        assert(lineage(cs, i) == seq![i] + lineage(cs, p));
    }
}

/// Commits that arrive later do not change the lineage of a commit.
pub proof fn lemma_lineage_stable(cs: Commits, more: Commits, i: int)
    requires
        cs.len() <= more.len(),
        more.subrange(0, cs.len() as int) == cs,
        0 <= i < cs.len(),
    ensures
        lineage(more, i) == lineage(cs, i),
    decreases i,
{
    assert(more[i] == more.subrange(0, cs.len() as int)[i]);
    if has_first_parent(cs, i) {
        lemma_lineage_stable(cs, more, cs[i].parents@[0] as int);
    }
}

/// After `create_commit` or `create_semantic_commit` the new head's direct
/// parent is the head of before, and its ancestors, nearest first, are the
/// head of before followed by that head's own ancestors, down to the initial
/// commit.
pub proof fn law_commit_extends_head(
    before: Repository,
    after: Repository,
    commit_hash: CommitHash,
    content: CommitContent,
)
    requires
        before.wf(),
        after.wf(),
        after.is_child_of_head(&before, commit_hash, content),
    ensures
        after.head_hash() == commit_hash,
        after.commits@[after.head as int].parents@ == seq![before.head],
        listed_ancestors(after.commits@, after.head as int, None) == lineage(
            before.commits@,
            before.head as int,
        ),
        listed_ancestors(after.commits@, after.head as int, None).first() == before.head,
        listed_ancestors(after.commits@, after.head as int, None).last() == 0,
{
    let cs = before.commits@;
    let ns = after.commits@;
    let n = cs.len() as int;
    let h = before.head as int;
    lemma_lineage_stable(cs, ns, h);
    assert(has_first_parent(ns, n));
    assert(lineage(ns, n) == seq![n] + lineage(ns, h));
    assert(lineage(ns, n).subrange(1, lineage(ns, n).len() as int) =~= lineage(cs, h));
    lemma_lineage_ends_at_root(cs, h);
}

/// A semantic commit is read back as it was written.
pub proof fn law_semantic_round_trip(
    before: Repository,
    after: Repository,
    commit_hash: CommitHash,
    commit: SemanticCommit,
)
    requires
        before.wf(),
        after.wf(),
        after.is_child_of_head(&before, commit_hash, CommitContent::Semantic(commit)),
    ensures
        has_hash(after.commits@, commit_hash),
        after.commits@[index_of_hash(after.commits@, commit_hash)].content
            == CommitContent::Semantic(commit),
{
    lemma_index_of_hash(after.commits@, before.commits@.len() as int);
}

/// Where a path from `a` to `d` exists, `a` is the merge base of the two,
/// the path has as many commits as `a` lies steps above `d`, and that number
/// is the only one for which a path exists.
pub proof fn law_path_is_from_merge_base(cs: Commits, a: int, d: int, k: int, other: int)
    requires
        dag_ok(cs),
        distinct_hashes(cs),
        0 <= d < cs.len(),
        path_steps(cs, a, d, k),
    ensures
        a != d,
        is_merge_base(cs, a, a, d),
        merge_base_of(cs, a, d) == a,
        path_between(cs, d, k).len() == k,
        path_between(cs, d, k).last() == cs[d].hash,
        path_steps(cs, a, d, other) ==> other == k,
{
    let l = lineage(cs, d);
    assert(l.contains(a));
    lemma_lineage_reaches(cs, d, a);
    lemma_reaches_bounds(cs, d, a);
    lemma_lineage_decreasing(cs, d, 0, k);
    assert(l[0] == d);
    lemma_reaches_descends(cs, d, a);
    lemma_reaches_descends(cs, a, a);
    assert forall|c: int| descends(cs, a, c) && descends(cs, d, c) implies c <= a by {
        lemma_descends_bound(cs, a, c);
    }
    lemma_merge_base_unique(cs, a, a, d);
    if path_steps(cs, a, d, other) {
        if other < k {
            lemma_lineage_decreasing(cs, d, other, k);
        } else if k < other {
            lemma_lineage_decreasing(cs, d, k, other);
        }
    }
}

/// The merge base of two commits is the same in either order, and any two
/// commits of a well-formed graph have one: asking for it succeeds with the
/// same hash both ways.
pub proof fn law_merge_base_symmetric(cs: Commits, i: int, j: int)
    requires
        dag_ok(cs),
        distinct_hashes(cs),
        0 <= i < cs.len(),
        0 <= j < cs.len(),
    ensures
        is_merge_base(cs, merge_base_of(cs, i, j), i, j),
        merge_base_of(cs, i, j) == merge_base_of(cs, j, i),
{
    lemma_merge_base_exists(cs, i, j);
    let m = merge_base_of(cs, i, j);
    assert(is_merge_base(cs, m, j, i));
    lemma_merge_base_unique(cs, m, j, i);
}

/// Where `a` is the merge base of itself and another commit `d`, and no
/// merge commit lies on the first-parent line of `d` above it, there is a
/// path from `a` to `d`.
pub proof fn law_merge_base_gives_path(cs: Commits, a: int, d: int) -> (k: int)
    requires
        dag_ok(cs),
        distinct_hashes(cs),
        cs.len() <= usize::MAX,
        0 <= d < cs.len(),
        a != d,
        is_merge_base(cs, a, a, d),
        linear_above(cs, a, d),
    ensures
        path_steps(cs, a, d, k),
{
    let l = lineage(cs, d);
    lemma_linear_descent(cs, d, a);
    lemma_lineage_reaches(cs, d, a);
    let k = choose|k: int| 0 <= k < l.len() && l[k] == a;
    assert(l[0] == d);
    assert forall|j: int| 0 <= j < k && j < l.len() implies cs[#[trigger] l[j]].parents@.len()
        <= 1 by {
        lemma_lineage_decreasing(cs, d, j, k);
        assert(l.contains(l[j]));
        lemma_lineage_reaches(cs, d, l[j]);
    }
    k
}

/// Branches, or tags, created one after another under names that differ
/// from one another and from those already there, in whatever order the
/// calls are served: afterwards the table holds the old names and the new
/// ones, no more, and each new name points to the commit it was created on.
pub proof fn law_creates_accumulate(t: RefTable, added: RefTable, k: int)
    requires
        distinct_names(t),
        distinct_names(added),
        forall|i: int| 0 <= i < added.len() ==> !has_name(t, (#[trigger] added[i]).0),
        0 <= k < added.len(),
    ensures
        (t + added).len() == t.len() + added.len(),
        distinct_names(t + added),
        has_name(t + added, added[k].0),
        target_of(t + added, added[k].0) == added[k].1,
{
    let u = t + added;
    assert forall|i: int, j: int| 0 <= i < j < u.len() implies (#[trigger] u[i]).0 != (
    #[trigger] u[j]).0 by {
        if j < t.len() {
            assert(t[i].0 != t[j].0);
        } else if i < t.len() {
            assert(!has_name(t, added[j - t.len()].0));
            assert(t[i].0 != added[j - t.len()].0);
        } else {
            assert(added[i - t.len()].0 != added[j - t.len()].0);
        }
    }
    assert(u[t.len() + k] == added[k]);
    lemma_index_unique(u, added[k].0, t.len() + k);
}

/// The pairs that creating each of the names on `h` adds to a table.
pub open spec fn pairs_on(names: Seq<Seq<char>>, h: CommitHash) -> RefTable {
    names.map_values(|n: Seq<char>| (n, h))
}

/// After the first `j` of the calls, the table holds the branches of before
/// and the first `j` names.
pub proof fn lemma_serial_creates_so_far(
    states: Seq<Repository>,
    names: Seq<Seq<char>>,
    h: CommitHash,
    j: int,
)
    requires
        states.len() == names.len() + 1,
        has_hash(states[0].commits@, h),
        forall|a: int, b: int| 0 <= a < b < names.len() ==> names[a] != names[b],
        forall|a: int| 0 <= a < names.len() ==> !has_name(states[0].branch_table(), names[a]),
        forall|a: int|
            0 <= a < names.len() ==> after_create_branch(
                #[trigger] states[a],
                states[a + 1],
                names[a],
                h,
            ),
        0 <= j <= names.len(),
    ensures
        states[j].commits == states[0].commits,
        states[j].branch_table() == states[0].branch_table() + pairs_on(names, h).subrange(0, j),
        j < names.len() ==> !has_name(states[j].branch_table(), names[j]),
    decreases j,
{
    let t = states[0].branch_table();
    let pairs = pairs_on(names, h);
    if j == 0 {
        assert(t + pairs.subrange(0, 0) =~= t);
    } else {
        lemma_serial_creates_so_far(states, names, h, j - 1);
        assert(after_create_branch(states[j - 1], states[j], names[j - 1], h));
        assert(t + pairs.subrange(0, j) =~= (t + pairs.subrange(0, j - 1)).push((names[j - 1], h)));
    }
    if j < names.len() {
        let u = t + pairs.subrange(0, j);
        assert forall|k: int| 0 <= k < u.len() implies (#[trigger] u[k]).0 != names[j] by {
            if k < t.len() {
                assert(u[k] == t[k]);
                assert(!has_name(t, names[j]));
            } else {
                assert(u[k] == pairs[k - t.len()]);
                assert(names[k - t.len()] != names[j]);
            }
        }
    }
}

/// Branches created on one repository, one call after another in whatever
/// order the calls are served, under names that differ from one another and
/// from those already there: every call succeeds, the table then holds the
/// branches of before and each new name once, each new name resolves to the
/// commit, and each branch of before resolves as it did.
pub proof fn law_serial_creates(
    states: Seq<Repository>,
    names: Seq<Seq<char>>,
    h: CommitHash,
    i: int,
    other: Seq<char>,
)
    requires
        states.len() == names.len() + 1,
        states[0].wf(),
        has_hash(states[0].commits@, h),
        forall|a: int, b: int| 0 <= a < b < names.len() ==> names[a] != names[b],
        forall|a: int| 0 <= a < names.len() ==> !has_name(states[0].branch_table(), names[a]),
        forall|a: int|
            0 <= a < names.len() ==> after_create_branch(
                #[trigger] states[a],
                states[a + 1],
                names[a],
                h,
            ),
        0 <= i < names.len(),
    ensures
        has_hash(states[i].commits@, h) && !has_name(states[i].branch_table(), names[i]),
        states.last().branch_table() == states[0].branch_table() + pairs_on(names, h),
        states.last().branch_table().len() == states[0].branch_table().len() + names.len(),
        distinct_names(states.last().branch_table()),
        has_name(states.last().branch_table(), names[i]),
        target_of(states.last().branch_table(), names[i]) == h,
        has_name(states[0].branch_table(), other) ==> has_name(
            states.last().branch_table(),
            other,
        ) && target_of(states.last().branch_table(), other) == target_of(
            states[0].branch_table(),
            other,
        ),
{
    let t = states[0].branch_table();
    let pairs = pairs_on(names, h);
    lemma_serial_creates_so_far(states, names, h, i);
    lemma_serial_creates_so_far(states, names, h, names.len() as int);
    assert(pairs.subrange(0, names.len() as int) =~= pairs);
    assert forall|a: int, b: int| 0 <= a < b < pairs.len() implies (#[trigger] pairs[a]).0 != (
    #[trigger] pairs[b]).0 by {
        assert(names[a] != names[b]);
    }
    assert forall|a: int| 0 <= a < pairs.len() implies !has_name(t, (#[trigger] pairs[a]).0) by {
        assert(!has_name(t, names[a]));
    }
    law_creates_accumulate(t, pairs, i);
    if has_name(t, other) {
        let o = index_of_name(t, other);
        assert((t + pairs)[o] == t[o]);
        lemma_index_unique(t + pairs, other, o);
    }
}

} // verus!
