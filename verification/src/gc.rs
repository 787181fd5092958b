//! Garbage collection: commits that nothing points to, and that no kept
//! commit descends from, leave the graph.

use vstd::prelude::*;
use crate::types::CommitHash;
use crate::error::Error;
use crate::graph::{
    CommitRecord, Commits, dag_ok, distinct_hashes, has_hash, index_of_hash, lemma_index_of_hash,
};
use crate::refs::RefTable;
use crate::repository::{Repository, TrackingTable};

verus! {

/// Commit `i` is kept: a root points to it, or a kept commit has it as a parent.
pub open spec fn live(cs: Commits, roots: Set<CommitHash>, i: int) -> bool
    decreases cs.len() - i, 1int, 0int,
{
    0 <= i < cs.len() && (roots.contains(cs[i].hash) || kept_by(cs, roots, i, i + 1))
}

/// Some kept commit at place `j` or above has commit `i` as a parent.
pub open spec fn kept_by(cs: Commits, roots: Set<CommitHash>, i: int, j: int) -> bool
    decreases cs.len() - i, 0int, cs.len() - j,
{
    0 <= i < j < cs.len() && ((live(cs, roots, j) && cs[j].parents@.contains(i as usize))
        || kept_by(cs, roots, i, j + 1))
}

/// Commit `i` is kept on account of a root or of a kept commit at place `lo` or above.
pub open spec fn fed(cs: Commits, roots: Set<CommitHash>, i: int, lo: int) -> bool {
    0 <= i < cs.len() && (roots.contains(cs[i].hash) || exists|j: int|
        i < j < cs.len() && lo <= j && #[trigger] live(cs, roots, j) && cs[j].parents@.contains(
            i as usize,
        ))
}

/// How many commits before place `i` are kept; the place of `i` afterwards.
pub open spec fn rank(cs: Commits, roots: Set<CommitHash>, i: int) -> int
    decreases i,
{
    if i <= 0 {
        0
    } else {
        rank(cs, roots, i - 1) + if live(cs, roots, i - 1) {
            1int
        } else {
            0int
        }
    }
}

/// `rec` is commit `i` with each parent's place replaced by its new place.
pub open spec fn moved(cs: Commits, roots: Set<CommitHash>, i: int, rec: CommitRecord) -> bool {
    &&& rec.hash == cs[i].hash
    &&& rec.content == cs[i].content
    &&& rec.parents@.len() == cs[i].parents@.len()
    &&& forall|k: int|
        0 <= k < rec.parents@.len() ==> (#[trigger] rec.parents@[k]) == rank(
            cs,
            roots,
            cs[i].parents@[k] as int,
        )
}

/// `out` holds exactly the kept commits of `cs`, in their order.
pub open spec fn pruned(cs: Commits, roots: Set<CommitHash>, out: Commits) -> bool {
    &&& out.len() == rank(cs, roots, cs.len() as int)
    &&& forall|i: int|
        0 <= i < cs.len() && #[trigger] live(cs, roots, i) ==> 0 <= rank(cs, roots, i) < out.len()
            && moved(cs, roots, i, out[rank(cs, roots, i)])
}

/// `kept_by` holds exactly where a kept commit at place `j` or above has `i` as a parent.
pub proof fn lemma_kept_by(cs: Commits, roots: Set<CommitHash>, i: int, j: int)
    requires
        0 <= i < j,
    ensures
        kept_by(cs, roots, i, j) <==> exists|w: int|
            i < w < cs.len() && j <= w && #[trigger] live(cs, roots, w) && cs[w].parents@.contains(
                i as usize,
            ),
    decreases cs.len() - j,
{
    if j < cs.len() {
        lemma_kept_by(cs, roots, i, j + 1);
        if kept_by(cs, roots, i, j) {
            if live(cs, roots, j) && cs[j].parents@.contains(i as usize) {
                assert(i < j < cs.len() && j <= j && live(cs, roots, j));
            } else {
                assert(kept_by(cs, roots, i, j + 1));
                let w = choose|w: int|
                    i < w < cs.len() && j + 1 <= w && #[trigger] live(cs, roots, w)
                        && cs[w].parents@.contains(i as usize);
                assert(i < w < cs.len() && j <= w && live(cs, roots, w));
            }
        }
        if exists|w: int|
            i < w < cs.len() && j <= w && #[trigger] live(cs, roots, w) && cs[w].parents@.contains(
                i as usize,
            ) {
            let w = choose|w: int|
                i < w < cs.len() && j <= w && #[trigger] live(cs, roots, w)
                    && cs[w].parents@.contains(i as usize);
            if w != j {
                assert(i < w < cs.len() && j + 1 <= w && live(cs, roots, w));
                assert(kept_by(cs, roots, i, j + 1));
            }
            assert(kept_by(cs, roots, i, j));
        }
    }
}

/// With every later commit taken into account, `fed` is `live`.
pub proof fn lemma_fed_is_live(cs: Commits, roots: Set<CommitHash>, i: int, lo: int)
    requires
        lo <= i + 1,
    ensures
        fed(cs, roots, i, lo) == live(cs, roots, i),
{
    if 0 <= i < cs.len() {
        lemma_kept_by(cs, roots, i, i + 1);
    }
}

/// A parent of a kept commit is kept.
pub proof fn lemma_live_from_child(cs: Commits, roots: Set<CommitHash>, i: int, j: int)
    requires
        0 <= i < j < cs.len(),
        live(cs, roots, j),
        cs[j].parents@.contains(i as usize),
    ensures
        live(cs, roots, i),
{
    lemma_kept_by(cs, roots, i, i + 1);
}

/// New places keep the order of the old ones, and a kept commit's new place
/// is below that of every later commit.
pub proof fn lemma_rank_mono(cs: Commits, roots: Set<CommitHash>, a: int, b: int)
    requires
        0 <= a <= b,
    ensures
        0 <= rank(cs, roots, a) <= rank(cs, roots, b),
        rank(cs, roots, b) <= b,
        live(cs, roots, a) && a < b ==> rank(cs, roots, a) < rank(cs, roots, b),
    decreases b,
{
    if b > 0 {
        if a < b {
            lemma_rank_mono(cs, roots, a, b - 1);
        } else {
            lemma_rank_mono(cs, roots, 0, b - 1);
        }
    }
}

/// Every new place below `rank(n)` is the new place of a kept commit before `n`.
pub proof fn lemma_rank_onto(cs: Commits, roots: Set<CommitHash>, n: int, r: int) -> (i: int)
    requires
        0 <= n,
        0 <= r < rank(cs, roots, n),
    ensures
        0 <= i < n,
        live(cs, roots, i),
        rank(cs, roots, i) == r,
    decreases n,
{
    if live(cs, roots, n - 1) && rank(cs, roots, n - 1) == r {
        n - 1
    } else {
        lemma_rank_onto(cs, roots, n - 1, r)
    }
}

/// The first parent of a kept commit is kept, and so the initial commit is.
pub proof fn lemma_root_live(cs: Commits, roots: Set<CommitHash>, i: int)
    requires
        dag_ok(cs),
        live(cs, roots, i),
    ensures
        live(cs, roots, 0),
    decreases i,
{
    if i > 0 {
        let p = cs[i].parents@[0];
        assert(cs[i].parents@.contains(p));
        lemma_live_from_child(cs, roots, p as int, i);
        lemma_root_live(cs, roots, p as int);
    }
}

/// What is left after pruning is a graph again, with the same commits under
/// new places.
pub proof fn lemma_pruned_ok(cs: Commits, roots: Set<CommitHash>, out: Commits)
    requires
        dag_ok(cs),
        distinct_hashes(cs),
        pruned(cs, roots, out),
        exists|i: int| live(cs, roots, i),
    ensures
        dag_ok(out),
        distinct_hashes(out),
        forall|i: int|
            0 <= i < cs.len() && #[trigger] live(cs, roots, i) ==> has_hash(out, cs[i].hash)
                && index_of_hash(out, cs[i].hash) == rank(cs, roots, i),
        forall|h: CommitHash|
            has_hash(out, h) ==> has_hash(cs, h) && live(cs, roots, index_of_hash(cs, h)),
{
    let n = cs.len() as int;
    let w = choose|i: int| live(cs, roots, i);
    lemma_root_live(cs, roots, w);
    lemma_rank_mono(cs, roots, 0, n);
    assert(rank(cs, roots, 1) == 1);
    lemma_rank_mono(cs, roots, 1, n);
    assert(moved(cs, roots, 0, out[0]));
    assert forall|r: int| 0 < r < out.len() implies (#[trigger] out[r]).parents@.len() >= 1 by {
        let i = lemma_rank_onto(cs, roots, n, r);
        assert(moved(cs, roots, i, out[r]));
        assert(cs[i].parents@.len() >= 1);
    }
    assert forall|r: int, k: int| 0 <= r < out.len() && 0 <= k < out[r].parents@.len() implies (
    #[trigger] out[r].parents@[k]) < r by {
        let i = lemma_rank_onto(cs, roots, n, r);
        assert(moved(cs, roots, i, out[r]));
        let p = cs[i].parents@[k];
        assert(p < i);
        assert(cs[i].parents@.contains(p));
        lemma_live_from_child(cs, roots, p as int, i);
        lemma_rank_mono(cs, roots, p as int, i);
    }
    assert forall|a: int, b: int| 0 <= a < b < out.len() implies (#[trigger] out[a]).hash != (
    #[trigger] out[b]).hash by {
        let i = lemma_rank_onto(cs, roots, n, a);
        let j = lemma_rank_onto(cs, roots, n, b);
        assert(moved(cs, roots, i, out[a]));
        assert(moved(cs, roots, j, out[b]));
        if i < j {
            assert(cs[i].hash != cs[j].hash);
        } else if j < i {
            assert(cs[j].hash != cs[i].hash);
        }
    }
    assert forall|i: int| 0 <= i < cs.len() && #[trigger] live(cs, roots, i) implies has_hash(
        out,
        cs[i].hash,
    ) && index_of_hash(out, cs[i].hash) == rank(cs, roots, i) by {
        let r = rank(cs, roots, i);
        assert(moved(cs, roots, i, out[r]));
        lemma_index_of_hash(out, r);
    }
    assert forall|h: CommitHash| has_hash(out, h) implies has_hash(cs, h) && live(
        cs,
        roots,
        index_of_hash(cs, h),
    ) by {
        let r = index_of_hash(out, h);
        let i = lemma_rank_onto(cs, roots, n, r);
        assert(moved(cs, roots, i, out[r]));
        lemma_index_of_hash(cs, i);
    }
}

/// Marks the parents of every marked commit, from the newest commit down.
pub(crate) fn spread(commits: &Vec<CommitRecord>, mark: &mut Vec<bool>, Ghost(roots): Ghost<Set<CommitHash>>)
    requires
        dag_ok(commits@),
        old(mark)@.len() == commits@.len(),
        forall|i: int|
            0 <= i < commits@.len() ==> old(mark)@[i] == roots.contains(
                (#[trigger] commits@[i]).hash,
            ),
    ensures
        final(mark)@.len() == commits@.len(),
        forall|i: int| 0 <= i < commits@.len() ==> final(mark)@[i] == live(commits@, roots, i),
{
    let ghost cs = commits@;
    let n = commits.len();
    let mut j: usize = n;
    while j > 0
        invariant
            cs == commits@,
            dag_ok(cs),
            n == cs.len(),
            j <= n,
            mark@.len() == n,
            forall|i: int| 0 <= i < n ==> mark@[i] == fed(cs, roots, i, j as int),
        decreases j,
    {
        let x = j - 1;
        proof {
            lemma_fed_is_live(cs, roots, x as int, j as int);
        }
        if mark[x] {
            let np = commits[x].parents.len();
            let mut k: usize = 0;
            while k < np
                invariant
                    cs == commits@,
                    dag_ok(cs),
                    n == cs.len(),
                    0 < j <= n,
                    x == j - 1,
                    np == cs[x as int].parents@.len(),
                    k <= np,
                    live(cs, roots, x as int),
                    mark@.len() == n,
                    forall|i: int|
                        0 <= i < n ==> mark@[i] == (fed(cs, roots, i, j as int) || exists|t: int|
                            0 <= t < k && #[trigger] cs[x as int].parents@[t] == i),
                decreases np - k,
            {
                let p = commits[x].parents[k];
                let ghost before = mark@;
                mark.set(p, true);
                proof {
                    assert forall|i: int| 0 <= i < n implies mark@[i] == (fed(
                        cs,
                        roots,
                        i,
                        j as int,
                    ) || exists|t: int| 0 <= t < k + 1 && #[trigger] cs[x as int].parents@[t] == i) by {
                        if i == p {
                            assert(cs[x as int].parents@[k as int] == i);
                        } else {
                            assert(mark@[i] == before[i]);
                            if exists|t: int| 0 <= t < k + 1 && #[trigger] cs[x as int].parents@[t] == i {
                                let t = choose|t: int| 0 <= t < k + 1 && #[trigger] cs[x as int].parents@[t] == i;
                                assert(t < k);
                            }
                        }
                    }
                }
                k += 1;
            }
            proof {
                assert forall|i: int| 0 <= i < n implies mark@[i] == fed(cs, roots, i, x as int) by {
                    if exists|t: int| 0 <= t < np && #[trigger] cs[x as int].parents@[t] == i {
                        let t = choose|t: int| 0 <= t < np && #[trigger] cs[x as int].parents@[t] == i;
                        assert(cs[x as int].parents@[t] < x);
                        assert(cs[x as int].parents@.contains(i as usize));
                        assert(fed(cs, roots, i, x as int));
                    }
                    if fed(cs, roots, i, x as int) && !fed(cs, roots, i, j as int) {
                        let w = choose|w: int|
                            i < w < cs.len() && x <= w && #[trigger] live(cs, roots, w)
                                && cs[w].parents@.contains(i as usize);
                        assert(w == x);
                        let t = choose|t: int|
                            0 <= t < cs[x as int].parents@.len() && cs[x as int].parents@[t] == i as usize;
                        assert(cs[x as int].parents@[t] == i);
                    }
                }
            }
        } else {
            proof {
                assert forall|i: int| 0 <= i < n implies mark@[i] == fed(cs, roots, i, x as int) by {
                    if fed(cs, roots, i, x as int) && !fed(cs, roots, i, j as int) {
                        let w = choose|w: int|
                            i < w < cs.len() && x <= w && #[trigger] live(cs, roots, w)
                                && cs[w].parents@.contains(i as usize);
                        assert(w == x);
                    }
                }
            }
        }
        j = x;
    }
    proof {
        assert forall|i: int| 0 <= i < n implies mark@[i] == live(cs, roots, i) by {
            lemma_fed_is_live(cs, roots, i, 0);
        }
    }
}

/// The new place of every commit: how many marked commits come before it.
fn new_places(mark: &Vec<bool>, Ghost(cs): Ghost<Commits>, Ghost(roots): Ghost<Set<CommitHash>>) -> (r:
    Vec<usize>)
    requires
        mark@.len() == cs.len(),
        forall|i: int| 0 <= i < cs.len() ==> mark@[i] == live(cs, roots, i),
    ensures
        r@.len() == cs.len() + 1,
        forall|i: int| 0 <= i <= cs.len() ==> r@[i] == rank(cs, roots, i),
{
    let mut out: Vec<usize> = Vec::new();
    out.push(0);
    let mut i: usize = 0;
    while i < mark.len()
        invariant
            mark@.len() == cs.len(),
            forall|t: int| 0 <= t < cs.len() ==> mark@[t] == live(cs, roots, t),
            i <= mark@.len(),
            out@.len() == i + 1,
            forall|t: int| 0 <= t <= i ==> out@[t] == rank(cs, roots, t),
        decreases mark@.len() - i,
    {
        proof {
            lemma_rank_mono(cs, roots, 0, i as int);
        }
        let next = if mark[i] {
            out[i] + 1
        } else {
            out[i]
        };
        out.push(next);
        i += 1;
    }
    out
}

/// Keeps the marked commits, in order, under their new places.
fn compact(
    commits: Vec<CommitRecord>,
    mark: &Vec<bool>,
    places: &Vec<usize>,
    Ghost(roots): Ghost<Set<CommitHash>>,
) -> (out: Vec<CommitRecord>)
    requires
        dag_ok(commits@),
        mark@.len() == commits@.len(),
        places@.len() == commits@.len() + 1,
        forall|i: int| 0 <= i < commits@.len() ==> mark@[i] == live(commits@, roots, i),
        forall|i: int| 0 <= i <= commits@.len() ==> places@[i] == rank(commits@, roots, i),
    ensures
        pruned(commits@, roots, out@),
{
    let ghost cs = commits@;
    let ghost n = cs.len() as int;
    let ghost total = rank(cs, roots, n);
    let mut old_commits = commits;
    let mut rev: Vec<CommitRecord> = Vec::new();
    while old_commits.len() > 0
        invariant
            dag_ok(cs),
            n == cs.len(),
            total == rank(cs, roots, n),
            mark@.len() == n,
            places@.len() == n + 1,
            forall|i: int| 0 <= i < n ==> mark@[i] == live(cs, roots, i),
            forall|i: int| 0 <= i <= n ==> places@[i] == rank(cs, roots, i),
            old_commits@.len() <= n,
            old_commits@ == cs.subrange(0, old_commits@.len() as int),
            rev@.len() == total - rank(cs, roots, old_commits@.len() as int),
            forall|i: int|
                old_commits@.len() <= i < n && #[trigger] live(cs, roots, i) ==> 0 <= total - 1
                    - rank(cs, roots, i) < rev@.len() && moved(
                    cs,
                    roots,
                    i,
                    rev@[total - 1 - rank(cs, roots, i)],
                ),
        decreases old_commits@.len(),
    {
        let ghost x = old_commits@.len() - 1;
        let ghost before = rev@;
        proof {
            lemma_rank_mono(cs, roots, x, n);
            lemma_rank_mono(cs, roots, x + 1, n);
        }
        let popped = old_commits.pop();
        assert(popped == Some(cs[x]));
        let rec = popped.unwrap();
        assert(old_commits@ =~= cs.subrange(0, x));
        if mark[old_commits.len()] {
            let CommitRecord { hash, parents, content } = rec;
            let mut mapped: Vec<usize> = Vec::new();
            let mut k: usize = 0;
            while k < parents.len()
                invariant
                    dag_ok(cs),
                    n == cs.len(),
                    0 <= x < n,
                    parents == cs[x].parents,
                    places@.len() == n + 1,
                    forall|i: int| 0 <= i <= n ==> places@[i] == rank(cs, roots, i),
                    k <= parents@.len(),
                    mapped@.len() == k,
                    forall|t: int|
                        0 <= t < k ==> (#[trigger] mapped@[t]) == rank(
                            cs,
                            roots,
                            cs[x].parents@[t] as int,
                        ),
                decreases parents@.len() - k,
            {
                let p = parents[k];
                assert(cs[x].parents@[k as int] < x);
                mapped.push(places[p]);
                k += 1;
            }
            rev.push(CommitRecord { hash, parents: mapped, content });
            proof {
                assert(moved(cs, roots, x, rev@[before.len() as int]));
                assert forall|i: int| x <= i < n && #[trigger] live(cs, roots, i) implies 0 <= total
                    - 1 - rank(cs, roots, i) < rev@.len() && moved(
                    cs,
                    roots,
                    i,
                    rev@[total - 1 - rank(cs, roots, i)],
                ) by {
                    if i > x {
                        assert(rev@[total - 1 - rank(cs, roots, i)] == before[total - 1 - rank(
                            cs,
                            roots,
                            i,
                        )]);
                    }
                }
            }
        }
    }
    proof {
        assert(rank(cs, roots, 0) == 0);
    }
    let ghost full = rev@;
    let mut out: Vec<CommitRecord> = Vec::new();
    while rev.len() > 0
        invariant
            full.len() == total,
            rev@.len() + out@.len() == total,
            rev@ == full.subrange(0, rev@.len() as int),
            forall|r: int| 0 <= r < out@.len() ==> out@[r] == full[total - 1 - r],
        decreases rev@.len(),
    {
        let ghost y = rev@.len() - 1;
        let popped = rev.pop();
        assert(popped == Some(full[y]));
        out.push(popped.unwrap());
        assert(rev@ =~= full.subrange(0, y));
    }
    proof {
        assert forall|i: int| 0 <= i < cs.len() && #[trigger] live(cs, roots, i) implies 0 <= rank(
            cs,
            roots,
            i,
        ) < out@.len() && moved(cs, roots, i, out@[rank(cs, roots, i)]) by {
            lemma_rank_mono(cs, roots, i, n);
            assert(out@[rank(cs, roots, i)] == full[total - 1 - rank(cs, roots, i)]);
        }
    }
    out
}

/// One of the first `k` names of the table points to `h`.
pub open spec fn hit(t: RefTable, k: int, h: CommitHash) -> bool {
    exists|j: int| 0 <= j < k && j < t.len() && (#[trigger] t[j]).1 == h
}

/// One of the first `k` remote-tracking branches points to `h`.
pub open spec fn hit_tracking(t: TrackingTable, k: int, h: CommitHash) -> bool {
    exists|j: int| 0 <= j < k && j < t.len() && (#[trigger] t[j]).2 == h
}

/// Looking at one more name adds the commit that name points to.
proof fn lemma_hit_step(t: RefTable, k: int, h: CommitHash)
    requires
        0 <= k < t.len(),
    ensures
        hit(t, k + 1, h) == (hit(t, k, h) || t[k].1 == h),
{
    if hit(t, k + 1, h) {
        let j = choose|j: int| 0 <= j < k + 1 && j < t.len() && (#[trigger] t[j]).1 == h;
        if j < k {
            assert(hit(t, k, h));
        }
    }
    if hit(t, k, h) {
        let j = choose|j: int| 0 <= j < k && j < t.len() && (#[trigger] t[j]).1 == h;
        assert(0 <= j < k + 1 && t[j].1 == h);
    }
    if t[k].1 == h {
        assert(hit(t, k + 1, h));
    }
}

/// Looking at one more remote-tracking branch adds the commit it points to.
proof fn lemma_hit_tracking_step(t: TrackingTable, k: int, h: CommitHash)
    requires
        0 <= k < t.len(),
    ensures
        hit_tracking(t, k + 1, h) == (hit_tracking(t, k, h) || t[k].2 == h),
{
    if hit_tracking(t, k + 1, h) {
        let j = choose|j: int| 0 <= j < k + 1 && j < t.len() && (#[trigger] t[j]).2 == h;
        if j < k {
            assert(hit_tracking(t, k, h));
        }
    }
    if hit_tracking(t, k, h) {
        let j = choose|j: int| 0 <= j < k && j < t.len() && (#[trigger] t[j]).2 == h;
        assert(0 <= j < k + 1 && t[j].2 == h);
    }
    if t[k].2 == h {
        assert(hit_tracking(t, k + 1, h));
    }
}

impl Repository {
    /// The head, a branch, a tag or a remote-tracking branch points to `h`.
    pub open spec fn is_root(&self, h: CommitHash) -> bool {
        ||| h == self.head_hash()
        ||| hit(self.branch_table(), self.branch_table().len() as int, h)
        ||| hit(self.tag_table(), self.tag_table().len() as int, h)
        ||| hit_tracking(self.tracking_table(), self.tracking_table().len() as int, h)
    }

    /// The hashes that keep commits in the graph.
    pub open spec fn roots(&self) -> Set<CommitHash> {
        Set::new(|h: CommitHash| self.is_root(h))
    }

    /// Marks the commit that has hash `h`.
    fn mark_hash(&self, mark: &mut Vec<bool>, h: &CommitHash)
        requires
            self.wf(),
            old(mark)@.len() == self.commits@.len(),
            has_hash(self.commits@, *h),
        ensures
            final(mark)@.len() == self.commits@.len(),
            forall|i: int|
                0 <= i < self.commits@.len() ==> final(mark)@[i] == (old(mark)@[i] || (
                #[trigger] self.commits@[i]).hash == *h),
    {
        match self.find_commit(h) {
            Some(i) => {
                mark.set(i, true);
                assert forall|j: int| 0 <= j < self.commits@.len() implies mark@[j] == (old(
                    mark,
                )@[j] || (#[trigger] self.commits@[j]).hash == *h) by {
                    if j < i {
                        assert(self.commits@[j].hash != self.commits@[i as int].hash);
                    } else if i < j {
                        assert(self.commits@[i as int].hash != self.commits@[j].hash);
                    }
                }
            },
            None => {},
        }
    }

    /// For each commit, whether a root points to it.
    fn root_marks(&self) -> (mark: Vec<bool>)
        requires
            self.wf(),
        ensures
            mark@.len() == self.commits@.len(),
            forall|i: int|
                0 <= i < self.commits@.len() ==> mark@[i] == self.roots().contains(
                    (#[trigger] self.commits@[i]).hash,
                ),
    {
        let ghost cs = self.commits@;
        let ghost bt = self.branch_table();
        let ghost tt = self.tag_table();
        let ghost rt = self.tracking_table();
        let mut mark: Vec<bool> = Vec::new();
        while mark.len() < self.commits.len()
            invariant
                mark@.len() <= self.commits@.len(),
                forall|i: int| 0 <= i < mark@.len() ==> !mark@[i],
            decreases self.commits@.len() - mark@.len(),
        {
            mark.push(false);
        }
        let head = self.commits[self.head].hash;
        proof {
            lemma_index_of_hash(cs, self.head as int);
        }
        self.mark_hash(&mut mark, &head);
        let mut k: usize = 0;
        while k < self.branches.len()
            invariant
                self.wf(),
                cs == self.commits@,
                bt == self.branch_table(),
                head == self.head_hash(),
                k <= bt.len(),
                mark@.len() == cs.len(),
                forall|i: int|
                    0 <= i < cs.len() ==> mark@[i] == ((#[trigger] cs[i]).hash == head || hit(
                        bt,
                        k as int,
                        cs[i].hash,
                    )),
            decreases bt.len() - k,
        {
            let target = self.branches[k].target;
            assert(has_hash(cs, bt[k as int].1));
            self.mark_hash(&mut mark, &target);
            proof {
                assert forall|i: int| 0 <= i < cs.len() implies mark@[i] == ((
                #[trigger] cs[i]).hash == head || hit(bt, k + 1, cs[i].hash)) by {
                    lemma_hit_step(bt, k as int, cs[i].hash);
                }
            }
            k += 1;
        }
        let mut k: usize = 0;
        while k < self.tags.len()
            invariant
                self.wf(),
                cs == self.commits@,
                bt == self.branch_table(),
                tt == self.tag_table(),
                head == self.head_hash(),
                k <= tt.len(),
                mark@.len() == cs.len(),
                forall|i: int|
                    0 <= i < cs.len() ==> mark@[i] == ((#[trigger] cs[i]).hash == head || hit(
                        bt,
                        bt.len() as int,
                        cs[i].hash,
                    ) || hit(tt, k as int, cs[i].hash)),
            decreases tt.len() - k,
        {
            let target = self.tags[k].target;
            assert(has_hash(cs, tt[k as int].1));
            self.mark_hash(&mut mark, &target);
            proof {
                assert forall|i: int| 0 <= i < cs.len() implies mark@[i] == ((
                #[trigger] cs[i]).hash == head || hit(bt, bt.len() as int, cs[i].hash) || hit(
                    tt,
                    k + 1,
                    cs[i].hash,
                )) by {
                    lemma_hit_step(tt, k as int, cs[i].hash);
                }
            }
            k += 1;
        }
        let mut k: usize = 0;
        while k < self.remote_branches.len()
            invariant
                self.wf(),
                cs == self.commits@,
                bt == self.branch_table(),
                tt == self.tag_table(),
                rt == self.tracking_table(),
                head == self.head_hash(),
                k <= rt.len(),
                mark@.len() == cs.len(),
                forall|i: int|
                    0 <= i < cs.len() ==> mark@[i] == ((#[trigger] cs[i]).hash == head || hit(
                        bt,
                        bt.len() as int,
                        cs[i].hash,
                    ) || hit(tt, tt.len() as int, cs[i].hash) || hit_tracking(
                        rt,
                        k as int,
                        cs[i].hash,
                    )),
            decreases rt.len() - k,
        {
            let target = self.remote_branches[k].target;
            assert(has_hash(cs, rt[k as int].2));
            self.mark_hash(&mut mark, &target);
            proof {
                assert forall|i: int| 0 <= i < cs.len() implies mark@[i] == ((
                #[trigger] cs[i]).hash == head || hit(bt, bt.len() as int, cs[i].hash) || hit(
                    tt,
                    tt.len() as int,
                    cs[i].hash,
                ) || hit_tracking(rt, k + 1, cs[i].hash)) by {
                    lemma_hit_tracking_step(rt, k as int, cs[i].hash);
                }
            }
            k += 1;
        }
        mark
    }

    /// Removes every commit that neither the head, a branch, a tag nor a
    /// remote-tracking branch points to, and that no kept commit descends
    /// from. The commits that stay keep their order, and every name keeps
    /// its commit.
    pub fn run_garbage_collection(&mut self) -> (r: Result<(), Error>)
        requires
            old(self).wf(),
        ensures
            final(self).wf(),
            r is Ok,
            pruned(old(self).commits@, old(self).roots(), final(self).commits@),
            forall|h: CommitHash|
                has_hash(final(self).commits@, h) <==> has_hash(old(self).commits@, h) && live(
                    old(self).commits@,
                    old(self).roots(),
                    index_of_hash(old(self).commits@, h),
                ),
            final(self).head == rank(old(self).commits@, old(self).roots(), old(self).head as int),
            final(self).head_hash() == old(self).head_hash(),
            final(self).branches == old(self).branches,
            final(self).tags == old(self).tags,
            final(self).attached == old(self).attached,
            final(self).remotes == old(self).remotes,
            final(self).remote_branches == old(self).remote_branches,
    {
        let ghost cs = self.commits@;
        let ghost roots = self.roots();
        let ghost n = cs.len() as int;
        let mut mark = self.root_marks();
        spread(&self.commits, &mut mark, Ghost(roots));
        let places = new_places(&mark, Ghost(cs), Ghost(roots));
        let mut commits: Vec<CommitRecord> = Vec::new();
        core::mem::swap(&mut self.commits, &mut commits);
        let out = compact(commits, &mark, &places, Ghost(roots));
        let head = places[self.head];
        proof {
            let h = old(self).head as int;
            assert(roots.contains(cs[h].hash));
            assert(live(cs, roots, h));
            lemma_pruned_ok(cs, roots, out@);
            lemma_rank_mono(cs, roots, h, n);
            assert(moved(cs, roots, h, out@[rank(cs, roots, h)]));
            assert forall|k: int| 0 <= k < self.branch_table().len() implies has_hash(
                out@,
                (#[trigger] self.branch_table()[k]).1,
            ) by {
                let t = self.branch_table()[k].1;
                assert(has_hash(cs, t));
                assert(hit(self.branch_table(), self.branch_table().len() as int, t));
                assert(roots.contains(cs[index_of_hash(cs, t)].hash));
                assert(live(cs, roots, index_of_hash(cs, t)));
            }
            assert forall|k: int| 0 <= k < self.tag_table().len() implies has_hash(
                out@,
                (#[trigger] self.tag_table()[k]).1,
            ) by {
                let t = self.tag_table()[k].1;
                assert(has_hash(cs, t));
                assert(hit(self.tag_table(), self.tag_table().len() as int, t));
                assert(roots.contains(cs[index_of_hash(cs, t)].hash));
                assert(live(cs, roots, index_of_hash(cs, t)));
            }
            assert forall|k: int| 0 <= k < self.tracking_table().len() implies has_hash(
                out@,
                (#[trigger] self.tracking_table()[k]).2,
            ) by {
                let t = self.tracking_table()[k].2;
                assert(has_hash(cs, t));
                assert(hit_tracking(self.tracking_table(), self.tracking_table().len() as int, t));
                assert(roots.contains(cs[index_of_hash(cs, t)].hash));
                assert(live(cs, roots, index_of_hash(cs, t)));
            }
            assert forall|h: CommitHash|
                has_hash(cs, h) && live(cs, roots, index_of_hash(cs, h)) implies has_hash(
                out@,
                h,
            ) by {
                let i = index_of_hash(cs, h);
                assert(cs[i].hash == h);
            }
        }
        self.commits = out;
        self.head = head;
        Ok(())
    }
}

} // verus!
