//! Descent through any parent, and the merge base of two commits.

use vstd::prelude::*;
use crate::gc::{lemma_kept_by, lemma_live_from_child, lemma_root_live, live, spread};
use crate::graph::{Commits, dag_ok, distinct_hashes, has_first_parent, linear_above, reaches};
use crate::repository::Repository;

verus! {

/// `c` is `i` or an ancestor of `i`, through whichever parents.
pub open spec fn descends(cs: Commits, i: int, c: int) -> bool {
    0 <= i < cs.len() && live(cs, set![cs[i].hash], c)
}

/// `m` is the nearest commit that both `i` and `j` descend from: they both
/// descend from it, and from no commit that came after it.
pub open spec fn is_merge_base(cs: Commits, m: int, i: int, j: int) -> bool {
    &&& descends(cs, i, m)
    &&& descends(cs, j, m)
    &&& forall|c: int| descends(cs, i, c) && descends(cs, j, c) ==> c <= m
}

/// The merge base of `i` and `j`.
pub open spec fn merge_base_of(cs: Commits, i: int, j: int) -> int {
    choose|m: int| is_merge_base(cs, m, i, j)
}

/// A commit descends only from itself and from commits before it.
pub proof fn lemma_descends_bound(cs: Commits, i: int, c: int)
    requires
        distinct_hashes(cs),
        descends(cs, i, c),
    ensures
        0 <= c <= i,
        c == i || !set![cs[i].hash].contains(cs[c].hash),
    decreases cs.len() - c,
{
    let roots = set![cs[i].hash];
    if cs[c].hash == cs[i].hash {
        if c < i {
            assert(cs[c].hash != cs[i].hash);
        } else if i < c {
            assert(cs[i].hash != cs[c].hash);
        }
    } else {
        lemma_kept_by(cs, roots, c, c + 1);
        let w = choose|w: int|
            c < w < cs.len() && c + 1 <= w && #[trigger] live(cs, roots, w)
                && cs[w].parents@.contains(c as usize);
        lemma_descends_bound(cs, i, w);
    }
}

/// Descent composes.
pub proof fn lemma_descends_trans(cs: Commits, i: int, p: int, c: int)
    requires
        distinct_hashes(cs),
        descends(cs, i, p),
        descends(cs, p, c),
    ensures
        descends(cs, i, c),
    decreases cs.len() - c,
{
    lemma_descends_bound(cs, p, c);
    if c != p {
        let roots = set![cs[p].hash];
        lemma_kept_by(cs, roots, c, c + 1);
        let w = choose|w: int|
            c < w < cs.len() && c + 1 <= w && #[trigger] live(cs, roots, w)
                && cs[w].parents@.contains(c as usize);
        lemma_descends_trans(cs, i, p, w);
        lemma_live_from_child(cs, set![cs[i].hash], c, w);
    }
}

/// A commit that descends from `a` along first parents descends from `a`.
pub proof fn lemma_reaches_descends(cs: Commits, d: int, a: int)
    requires
        distinct_hashes(cs),
        0 <= d < cs.len(),
        reaches(cs, d, a),
    ensures
        descends(cs, d, a),
    decreases d,
{
    if a != d {
        let p = cs[d].parents@[0];
        lemma_reaches_descends(cs, p as int, a);
        assert(cs[d].parents@.contains(p));
        lemma_live_from_child(cs, set![cs[d].hash], p as int, d);
        lemma_descends_trans(cs, d, p as int, a);
    }
}

/// What a commit with one parent descends from, itself left out, its parent
/// descends from.
pub proof fn lemma_only_parent(cs: Commits, d: int, a: int)
    requires
        distinct_hashes(cs),
        dag_ok(cs),
        cs.len() <= usize::MAX,
        descends(cs, d, a),
        a != d,
        cs[d].parents@.len() == 1,
    ensures
        descends(cs, cs[d].parents@[0] as int, a),
    decreases cs.len() - a,
{
    let p = cs[d].parents@[0] as int;
    lemma_descends_bound(cs, d, a);
    let roots = set![cs[d].hash];
    lemma_kept_by(cs, roots, a, a + 1);
    let w = choose|w: int|
        a < w < cs.len() && a + 1 <= w && #[trigger] live(cs, roots, w) && cs[w].parents@.contains(
            a as usize,
        );
    if w == d {
        let t = choose|t: int| 0 <= t < cs[d].parents@.len() && cs[d].parents@[t] == a as usize;
        assert(a == p);
    } else {
        lemma_only_parent(cs, d, w);
        lemma_live_from_child(cs, set![cs[p].hash], a, w);
    }
}

/// Where no merge commit lies on the first-parent line of `d` above `a`, and
/// `d` descends from `a`, it does so along first parents.
pub proof fn lemma_linear_descent(cs: Commits, d: int, a: int)
    requires
        distinct_hashes(cs),
        dag_ok(cs),
        cs.len() <= usize::MAX,
        descends(cs, d, a),
        linear_above(cs, a, d),
    ensures
        reaches(cs, d, a),
    decreases d,
{
    lemma_descends_bound(cs, d, a);
    if a != d {
        assert(reaches(cs, d, d));
        assert(cs[d].parents@.len() <= 1);
        assert(has_first_parent(cs, d));
        let p = cs[d].parents@[0] as int;
        lemma_only_parent(cs, d, a);
        assert forall|c: int| reaches(cs, p, c) && c > a implies (#[trigger] cs[c]).parents@.len()
            <= 1 by {
            assert(reaches(cs, d, c));
        }
        lemma_linear_descent(cs, p, a);
    }
}

/// Two commits have at most one merge base.
pub proof fn lemma_merge_base_unique(cs: Commits, m: int, i: int, j: int)
    requires
        is_merge_base(cs, m, i, j),
    ensures
        merge_base_of(cs, i, j) == m,
{
    let c = merge_base_of(cs, i, j);
    assert(is_merge_base(cs, c, i, j));
}

/// The last commit up to `top` that both `i` and `j` descend from.
pub proof fn lemma_highest_common(cs: Commits, i: int, j: int, top: int) -> (m: int)
    requires
        descends(cs, i, 0),
        descends(cs, j, 0),
        0 <= top,
    ensures
        0 <= m <= top,
        descends(cs, i, m),
        descends(cs, j, m),
        forall|c: int| descends(cs, i, c) && descends(cs, j, c) && c <= top ==> c <= m,
    decreases top,
{
    if top == 0 {
        0
    } else if descends(cs, i, top) && descends(cs, j, top) {
        top
    } else {
        lemma_highest_common(cs, i, j, top - 1)
    }
}

/// In a graph with one root any two commits have a merge base.
pub proof fn lemma_merge_base_exists(cs: Commits, i: int, j: int)
    requires
        dag_ok(cs),
        distinct_hashes(cs),
        0 <= i < cs.len(),
        0 <= j < cs.len(),
    ensures
        is_merge_base(cs, merge_base_of(cs, i, j), i, j),
{
    lemma_root_live(cs, set![cs[i].hash], i);
    lemma_root_live(cs, set![cs[j].hash], j);
    let m = lemma_highest_common(cs, i, j, i);
    assert forall|c: int| descends(cs, i, c) && descends(cs, j, c) implies c <= m by {
        lemma_descends_bound(cs, i, c);
    }
    assert(is_merge_base(cs, m, i, j));
}

impl Repository {
    /// For each commit, whether the commit at place `i` descends from it.
    pub(crate) fn ancestor_marks(&self, i: usize) -> (mark: Vec<bool>)
        requires
            self.wf(),
            i < self.commits@.len(),
        ensures
            mark@.len() == self.commits@.len(),
            forall|c: int|
                0 <= c < self.commits@.len() ==> mark@[c] == descends(self.commits@, i as int, c),
    {
        let ghost cs = self.commits@;
        let ghost roots = set![cs[i as int].hash];
        let mut mark: Vec<bool> = Vec::new();
        while mark.len() < self.commits.len()
            invariant
                mark@.len() <= self.commits@.len(),
                forall|c: int| 0 <= c < mark@.len() ==> !mark@[c],
            decreases self.commits@.len() - mark@.len(),
        {
            mark.push(false);
        }
        mark.set(i, true);
        proof {
            assert forall|c: int| 0 <= c < cs.len() implies mark@[c] == roots.contains(
                (#[trigger] cs[c]).hash,
            ) by {
                if c < i {
                    assert(cs[c].hash != cs[i as int].hash);
                } else if i < c {
                    assert(cs[i as int].hash != cs[c].hash);
                }
            }
        }
        spread(&self.commits, &mut mark, Ghost(roots));
        mark
    }
}

} // verus!
