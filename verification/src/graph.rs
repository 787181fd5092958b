//! The commit graph as contracts see it: commits in order of arrival, each
//! naming its parents by their place in that order.

use vstd::prelude::*;
use crate::types::{CommitHash, Timestamp};
use crate::semantic::SemanticCommit;

verus! {

/// What a commit carries besides its place in the graph.
#[derive(Debug)]
pub enum CommitContent {
    /// A commit made of a message, an author and an optional patch.
    Plain {
        message: String,
        author_name: String,
        author_email: String,
        timestamp: Timestamp,
        diff: Option<String>,
    },
    /// A commit made from a semantic commit.
    Semantic(SemanticCommit),
}

/// One commit of the graph.
#[derive(Debug)]
pub struct CommitRecord {
    pub hash: CommitHash,
    /// The places of the parents; each is lower than the commit's own.
    pub parents: Vec<usize>,
    pub content: CommitContent,
}

/// The commits of a graph, oldest first.
pub type Commits = Seq<CommitRecord>;

/// The graph is acyclic with one root: the first commit has no parent, every
/// other commit has at least one, and parents come before their children.
pub open spec fn dag_ok(cs: Commits) -> bool {
    &&& cs.len() >= 1
    &&& cs[0].parents@.len() == 0
    &&& forall|i: int| 0 < i < cs.len() ==> (#[trigger] cs[i]).parents@.len() >= 1
    &&& forall|i: int, k: int|
        0 <= i < cs.len() && 0 <= k < cs[i].parents@.len() ==> (#[trigger] cs[i].parents@[k]) < i
}

/// No two commits have the same hash.
pub open spec fn distinct_hashes(cs: Commits) -> bool {
    forall|i: int, j: int| 0 <= i < j < cs.len() ==> (#[trigger] cs[i]).hash != (#[trigger] cs[j]).hash
}

/// Some commit of the graph has hash `h`.
pub open spec fn has_hash(cs: Commits, h: CommitHash) -> bool {
    exists|i: int| 0 <= i < cs.len() && (#[trigger] cs[i]).hash == h
}

/// The place of the commit with hash `h`, where there is one.
pub open spec fn index_of_hash(cs: Commits, h: CommitHash) -> int {
    choose|i: int| 0 <= i < cs.len() && (#[trigger] cs[i]).hash == h
}

/// Among distinct hashes, the place of a commit's hash is the commit's place.
pub proof fn lemma_index_of_hash(cs: Commits, i: int)
    requires
        distinct_hashes(cs),
        0 <= i < cs.len(),
    ensures
        has_hash(cs, cs[i].hash),
        index_of_hash(cs, cs[i].hash) == i,
{
    let c = index_of_hash(cs, cs[i].hash);
    if c < i {
        assert(cs[c].hash != cs[i].hash);
    } else if i < c {
        assert(cs[i].hash != cs[c].hash);
    }
}

/// Whether commit `i` has a first parent to walk to.
pub open spec fn has_first_parent(cs: Commits, i: int) -> bool {
    0 < i < cs.len() && cs[i].parents@.len() > 0 && 0 <= cs[i].parents@[0] < i
}

/// Commit `i` followed by its ancestors along first parents, nearest first,
/// down to the root.
pub open spec fn lineage(cs: Commits, i: int) -> Seq<int>
    decreases i,
{
    if has_first_parent(cs, i) {
        seq![i] + lineage(cs, cs[i].parents@[0] as int)
    } else {
        seq![i]
    }
}

/// `c` is `i` or an ancestor of `i` along first parents.
pub open spec fn reaches(cs: Commits, i: int, c: int) -> bool
    decreases i,
{
    c == i || (has_first_parent(cs, i) && reaches(cs, cs[i].parents@[0] as int, c))
}

/// The hashes of the commits at the given places.
pub open spec fn hashes_of(cs: Commits, places: Seq<int>) -> Seq<CommitHash> {
    places.map_values(|i: int| cs[i].hash)
}

/// None of the first `n` commits of the lineage of `i` is a merge commit.
pub open spec fn linear_prefix(cs: Commits, i: int, n: int) -> bool {
    forall|k: int|
        0 <= k < n && k < lineage(cs, i).len() ==> cs[#[trigger] lineage(cs, i)[k]].parents@.len()
            <= 1
}

/// `a` lies `k` steps above `d`, and no commit from `d` up to the child of `a`
/// is a merge commit.
pub open spec fn path_steps(cs: Commits, a: int, d: int, k: int) -> bool {
    &&& 0 < k < lineage(cs, d).len()
    &&& lineage(cs, d)[k] == a
    &&& linear_prefix(cs, d, k)
}

/// No commit on the first-parent line from `i` down to `m`, `m` left out, is a
/// merge commit.
pub open spec fn linear_above(cs: Commits, m: int, i: int) -> bool {
    forall|c: int| reaches(cs, i, c) && c > m ==> (#[trigger] cs[c]).parents@.len() <= 1
}

/// A commit descends only from itself and from commits before it.
pub proof fn lemma_reaches_bounds(cs: Commits, i: int, c: int)
    requires
        0 <= i < cs.len(),
        reaches(cs, i, c),
    ensures
        0 <= c <= i,
    decreases i,
{
    if c != i {
        lemma_reaches_bounds(cs, cs[i].parents@[0] as int, c);
    }
}

/// The lineage of a commit on the lineage of `i` is the rest of the lineage of `i`.
pub proof fn lemma_lineage_suffix(cs: Commits, i: int, k: int)
    requires
        0 <= k < lineage(cs, i).len(),
    ensures
        lineage(cs, lineage(cs, i)[k]) == lineage(cs, i).subrange(k, lineage(cs, i).len() as int),
    decreases k,
{
    let l = lineage(cs, i);
    if k == 0 {
        assert(l[0] == i);
        assert(l.subrange(0, l.len() as int) =~= l);
    } else {
        let p = cs[i].parents@[0] as int;
        let r = lineage(cs, p);
        assert(l == seq![i] + r);
        lemma_lineage_suffix(cs, p, k - 1);
        assert(l[k] == r[k - 1]);
        assert(r.subrange(k - 1, r.len() as int) =~= l.subrange(k, l.len() as int));
    }
}

/// The lineage lists exactly the commits that `i` descends from, itself included.
pub proof fn lemma_lineage_reaches(cs: Commits, i: int, c: int)
    ensures
        lineage(cs, i).contains(c) <==> reaches(cs, i, c),
    decreases i,
{
    let l = lineage(cs, i);
    assert(l[0] == i);
    if has_first_parent(cs, i) {
        let p = cs[i].parents@[0] as int;
        let r = lineage(cs, p);
        lemma_lineage_reaches(cs, p, c);
        assert(l == seq![i] + r);
        if l.contains(c) {
            let k = choose|k: int| 0 <= k < l.len() && l[k] == c;
            if k > 0 {
                assert(r[k - 1] == c);
            }
        }
        if r.contains(c) {
            let k = choose|k: int| 0 <= k < r.len() && r[k] == c;
            assert(l[k + 1] == c);
        }
    } else {
        if l.contains(c) {
            let k = choose|k: int| 0 <= k < l.len() && l[k] == c;
            assert(k == 0);
        }
    }
}

/// How many commits of the lineage of `i` a walk that lists at most `max`
/// ancestors meets: `i` itself and every ancestor that it lists.
pub open spec fn walk_limit(cs: Commits, i: int, max: Option<usize>) -> int {
    let n = lineage(cs, i).len() as int;
    match max {
        Some(m) => if m + 1 < n { m + 1 } else { n },
        None => n,
    }
}

/// The ancestors of `i`, nearest first, at most `max` of them.
pub open spec fn listed_ancestors(cs: Commits, i: int, max: Option<usize>) -> Seq<int> {
    let l = lineage(cs, i);
    let n = l.len() - 1;
    let m = match max {
        Some(m) => if m < n { m as int } else { n },
        None => n,
    };
    l.subrange(1, m + 1)
}

/// The `k` commits after the `k`-th ancestor of `d`, oldest first, ending with `d`.
pub open spec fn path_between(cs: Commits, d: int, k: int) -> Seq<CommitHash> {
    Seq::new(k as nat, |j: int| cs[lineage(cs, d)[k - 1 - j]].hash)
}

/// A commit that is already there is still there after another one arrives.
pub proof fn lemma_push_keeps_hash(cs: Commits, record: CommitRecord, h: CommitHash)
    requires
        has_hash(cs, h),
    ensures
        has_hash(cs.push(record), h),
{
    let i = index_of_hash(cs, h);
    assert(cs.push(record)[i].hash == h);
}

/// `h` is the hash of a commit that has the commit at place `i` as a parent.
pub open spec fn is_child_hash(cs: Commits, i: usize, h: CommitHash) -> bool {
    exists|j: int| 0 <= j < cs.len() && (#[trigger] cs[j]).parents@.contains(i) && cs[j].hash == h
}

/// `v` holds exactly the hashes of the commits that have `i` as a parent, oldest first.
pub open spec fn children_match(cs: Commits, i: usize, v: Seq<CommitHash>) -> bool {
    &&& forall|t: int| 0 <= t < v.len() ==> is_child_hash(cs, i, #[trigger] v[t])
    &&& forall|h: CommitHash| is_child_hash(cs, i, h) ==> v.contains(h)
    &&& forall|s: int, t: int|
        0 <= s < t < v.len() ==> index_of_hash(cs, #[trigger] v[s]) < index_of_hash(
            cs,
            #[trigger] v[t],
        )
}

/// Whether `i` is among the places.
pub fn contains_place(places: &Vec<usize>, i: usize) -> (r: bool)
    ensures
        r == places@.contains(i),
{
    let mut k: usize = 0;
    while k < places.len()
        invariant
            k <= places@.len(),
            forall|j: int| 0 <= j < k ==> places@[j] != i,
        decreases places@.len() - k,
    {
        if places[k] == i {
            return true;
        }
        k += 1;
    }
    false
}

} // verus!
