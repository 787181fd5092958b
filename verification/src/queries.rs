//! Questions about the graph: ancestors, paths, merge bases, children.

use vstd::prelude::*;
use crate::types::CommitHash;
use crate::error::{Error, ErrorKind};
use crate::graph::{
    has_hash, index_of_hash, lemma_index_of_hash, has_first_parent, lineage, hashes_of,
    linear_prefix, path_steps, lemma_lineage_suffix, walk_limit, listed_ancestors, path_between,
    children_match, is_child_hash, contains_place,
};
use crate::gc::lemma_root_live;
use crate::ancestry::{
    descends, is_merge_base, merge_base_of, lemma_descends_bound, lemma_merge_base_unique,
};
use crate::repository::{Repository, unknown_commit, invalid, names_commit};

verus! {

impl Repository {
    /// The ancestors of the commit along its first parents, the direct parent
    /// first, at most `max` of them where a limit is given. A merge commit is
    /// refused, whether it is the commit itself or an ancestor that would be
    /// listed.
    pub fn list_ancestors(&self, commit_hash: CommitHash, max: Option<usize>) -> (r: Result<
        Vec<CommitHash>,
        Error,
    >)
        requires
            self.wf(),
        ensures
            match r {
                Ok(v) => {
                    let i = index_of_hash(self.commits@, commit_hash);
                    &&& has_hash(self.commits@, commit_hash)
                    &&& linear_prefix(self.commits@, i, walk_limit(self.commits@, i, max))
                    &&& v@ == hashes_of(self.commits@, listed_ancestors(self.commits@, i, max))
                },
                Err(e) => {
                    let i = index_of_hash(self.commits@, commit_hash);
                    if !has_hash(self.commits@, commit_hash) {
                        names_commit(e, commit_hash)
                    } else {
                        !linear_prefix(self.commits@, i, walk_limit(self.commits@, i, max))
                            && e.kind() == ErrorKind::InvalidRepository
                    }
                },
            },
    {
        let i = match self.find_commit(&commit_hash) {
            Some(i) => i,
            None => {
                return Err(unknown_commit(&commit_hash));
            },
        };
        let ghost cs = self.commits@;
        let ghost l = lineage(cs, i as int);
        let mut out: Vec<CommitHash> = Vec::new();
        let mut cur: usize = i;
        assert(out@ =~= hashes_of(cs, l.subrange(1, 1)));
        loop
            invariant
                self.wf(),
                cs == self.commits@,
                l == lineage(cs, i as int),
                i == index_of_hash(cs, commit_hash),
                has_hash(cs, commit_hash),
                cur < cs.len(),
                out@.len() < l.len(),
                l[out@.len() as int] == cur,
                out@ == hashes_of(cs, l.subrange(1, out@.len() as int + 1)),
                linear_prefix(cs, i as int, out@.len() as int),
                match max {
                    Some(m) => out@.len() <= m,
                    None => true,
                },
            decreases cur,
        {
            let ghost k = out@.len() as int;
            let np = self.commits[cur].parents.len();
            proof {
                lemma_lineage_suffix(cs, i as int, k);
            }
            if np > 1 {
                assert(k < walk_limit(cs, i as int, max));
                assert(cs[l[k]].parents@.len() > 1);
                assert(!linear_prefix(cs, i as int, walk_limit(cs, i as int, max)));
                return Err(invalid("a merge commit is among the ancestors"));
            }
            assert(linear_prefix(cs, i as int, k + 1));
            if let Some(m) = max {
                if out.len() >= m {
                    assert(walk_limit(cs, i as int, max) == k + 1);
                    assert(listed_ancestors(cs, i as int, max) == l.subrange(1, k + 1));
                    return Ok(out);
                }
            }
            if np == 0 {
                assert(lineage(cs, cur as int).len() == 1);
                assert(l.len() == k + 1);
                assert(walk_limit(cs, i as int, max) == k + 1);
                assert(listed_ancestors(cs, i as int, max) == l.subrange(1, k + 1));
                assert(linear_prefix(cs, i as int, k + 1));
                return Ok(out);
            }
            let p = self.commits[cur].parents[0];
            proof {
                assert(has_first_parent(cs, cur as int));
                assert(lineage(cs, cur as int) == seq![cur as int] + lineage(cs, p as int));
                assert(lineage(cs, cur as int)[1] == lineage(cs, p as int)[0]);
                assert(l.subrange(k, l.len() as int)[1] == l[k + 1]);
                assert(l[k + 1] == p);
            }
            out.push(self.commits[p].hash);
            cur = p;
            assert(out@ =~= hashes_of(cs, l.subrange(1, k + 2)));
        }
    }

    /// The commits after `ancestor` up to and including `descendant`, oldest
    /// first. The two must differ, `ancestor` must lie on the first-parent
    /// line of `descendant`, and no merge commit may lie between them. Where
    /// there is such a path, `ancestor` is the merge base of the two.
    pub fn query_commit_path(&self, ancestor: CommitHash, descendant: CommitHash) -> (r: Result<
        Vec<CommitHash>,
        Error,
    >)
        requires
            self.wf(),
        ensures
            match r {
                Ok(v) => {
                    let a = index_of_hash(self.commits@, ancestor);
                    let d = index_of_hash(self.commits@, descendant);
                    &&& has_hash(self.commits@, ancestor)
                    &&& has_hash(self.commits@, descendant)
                    &&& ancestor != descendant
                    &&& exists|k: int| #[trigger]
                        path_steps(self.commits@, a, d, k) && v@ == path_between(
                            self.commits@,
                            d,
                            k,
                        )
                },
                Err(e) => {
                    let a = index_of_hash(self.commits@, ancestor);
                    let d = index_of_hash(self.commits@, descendant);
                    if !has_hash(self.commits@, ancestor) {
                        names_commit(e, ancestor)
                    } else if !has_hash(self.commits@, descendant) {
                        names_commit(e, descendant)
                    } else {
                        &&& e.kind() == ErrorKind::InvalidRepository
                        &&& ancestor == descendant || forall|k: int| !path_steps(
                            self.commits@,
                            a,
                            d,
                            k,
                        )
                    }
                },
            },
    {
        let a = match self.find_commit(&ancestor) {
            Some(i) => i,
            None => {
                return Err(unknown_commit(&ancestor));
            },
        };
        let d = match self.find_commit(&descendant) {
            Some(i) => i,
            None => {
                return Err(unknown_commit(&descendant));
            },
        };
        if a == d {
            return Err(invalid("ancestor and descendant are the same"));
        }
        let ghost cs = self.commits@;
        let ghost l = lineage(cs, d as int);
        let mut down: Vec<CommitHash> = Vec::new();
        let mut cur: usize = d;
        loop
            invariant
                self.wf(),
                cs == self.commits@,
                l == lineage(cs, d as int),
                a == index_of_hash(cs, ancestor),
                d == index_of_hash(cs, descendant),
                has_hash(cs, ancestor),
                has_hash(cs, descendant),
                ancestor != descendant,
                a != d,
                cur < cs.len(),
                down@.len() < l.len(),
                l[down@.len() as int] == cur,
                forall|j: int| 0 <= j <= down@.len() ==> l[j] != a,
                linear_prefix(cs, d as int, down@.len() as int),
                forall|j: int| 0 <= j < down@.len() ==> down@[j] == cs[l[j]].hash,
            decreases cur,
        {
            let ghost k = down@.len() as int;
            let np = self.commits[cur].parents.len();
            proof {
                lemma_lineage_suffix(cs, d as int, k);
            }
            if np != 1 {
                proof {
                    if np == 0 {
                        assert(lineage(cs, cur as int).len() == 1);
                        assert(l.len() == k + 1);
                    }
                    assert forall|kk: int| !path_steps(cs, a as int, d as int, kk) by {
                        if k < kk < l.len() {
                            assert(cs[l[k]].parents@.len() > 1);
                        }
                    }
                }
                return Err(invalid("the ancestor is not the merge base of the two commits"));
            }
            let p = self.commits[cur].parents[0];
            proof {
                assert(has_first_parent(cs, cur as int));
                assert(lineage(cs, cur as int) == seq![cur as int] + lineage(cs, p as int));
                assert(lineage(cs, cur as int)[1] == lineage(cs, p as int)[0]);
                assert(l.subrange(k, l.len() as int)[1] == l[k + 1]);
                assert(l[k + 1] == p);
            }
            down.push(self.commits[cur].hash);
            if p == a {
                let n = down.len();
                let mut out: Vec<CommitHash> = Vec::new();
                let mut j: usize = 0;
                while j < n
                    invariant
                        n == down@.len(),
                        j <= n,
                        out@.len() == j,
                        forall|t: int| 0 <= t < j ==> out@[t] == down@[n - 1 - t],
                    decreases n - j,
                {
                    out.push(down[n - 1 - j]);
                    j += 1;
                }
                assert(path_steps(cs, a as int, d as int, k + 1));
                assert(out@ =~= path_between(cs, d as int, k + 1));
                return Ok(out);
            }
            cur = p;
        }
    }

    /// The merge base of the two commits: the nearest commit that both
    /// descend from, through whichever parents.
    pub fn find_merge_base(&self, commit_hash1: CommitHash, commit_hash2: CommitHash) -> (r:
        Result<CommitHash, Error>)
        requires
            self.wf(),
        ensures
            match r {
                Ok(h) => {
                    let i = index_of_hash(self.commits@, commit_hash1);
                    let j = index_of_hash(self.commits@, commit_hash2);
                    let m = merge_base_of(self.commits@, i, j);
                    &&& has_hash(self.commits@, commit_hash1)
                    &&& has_hash(self.commits@, commit_hash2)
                    &&& is_merge_base(self.commits@, m, i, j)
                    &&& 0 <= m < self.commits@.len()
                    &&& h == self.commits@[m].hash
                },
                Err(e) => {
                    if !has_hash(self.commits@, commit_hash1) {
                        names_commit(e, commit_hash1)
                    } else {
                        !has_hash(self.commits@, commit_hash2) && names_commit(e, commit_hash2)
                    }
                },
            },
    {
        let i = match self.find_commit(&commit_hash1) {
            Some(i) => i,
            None => {
                return Err(unknown_commit(&commit_hash1));
            },
        };
        let j = match self.find_commit(&commit_hash2) {
            Some(i) => i,
            None => {
                return Err(unknown_commit(&commit_hash2));
            },
        };
        let ghost cs = self.commits@;
        let from_first = self.ancestor_marks(i);
        let from_second = self.ancestor_marks(j);
        proof {
            lemma_root_live(cs, set![cs[i as int].hash], i as int);
            lemma_root_live(cs, set![cs[j as int].hash], j as int);
        }
        let mut x: usize = self.commits.len() - 1;
        while !(from_first[x] && from_second[x])
            invariant
                self.wf(),
                cs == self.commits@,
                x < cs.len(),
                from_first@.len() == cs.len(),
                from_second@.len() == cs.len(),
                forall|c: int| 0 <= c < cs.len() ==> from_first@[c] == descends(cs, i as int, c),
                forall|c: int| 0 <= c < cs.len() ==> from_second@[c] == descends(cs, j as int, c),
                descends(cs, i as int, 0),
                descends(cs, j as int, 0),
                forall|c: int|
                    x < c < cs.len() ==> !(descends(cs, i as int, c) && descends(cs, j as int, c)),
            decreases x,
        {
            x -= 1;
        }
        proof {
            assert forall|c: int|
                descends(cs, i as int, c) && descends(cs, j as int, c) implies c <= x by {
                lemma_descends_bound(cs, i as int, c);
            }
            lemma_merge_base_unique(cs, x as int, i as int, j as int);
        }
        Ok(self.commits[x].hash)
    }

    /// The commits that have the given commit as a parent.
    pub fn list_children(&self, commit_hash: CommitHash) -> (r: Result<Vec<CommitHash>, Error>)
        requires
            self.wf(),
        ensures
            match r {
                Ok(v) => has_hash(self.commits@, commit_hash) && children_match(
                    self.commits@,
                    index_of_hash(self.commits@, commit_hash) as usize,
                    v@,
                ),
                Err(e) => !has_hash(self.commits@, commit_hash) && names_commit(e, commit_hash),
            },
    {
        let i = match self.find_commit(&commit_hash) {
            Some(i) => i,
            None => {
                return Err(unknown_commit(&commit_hash));
            },
        };
        let ghost cs = self.commits@;
        let ghost mut places: Seq<int> = Seq::empty();
        let mut out: Vec<CommitHash> = Vec::new();
        let mut j: usize = 0;
        while j < self.commits.len()
            invariant
                self.wf(),
                cs == self.commits@,
                j <= cs.len(),
                places.len() == out@.len(),
                forall|t: int|
                    0 <= t < out@.len() ==> 0 <= (#[trigger] places[t]) < j && cs[places[t]].hash
                        == out@[t] && cs[places[t]].parents@.contains(i),
                forall|s: int, t: int| 0 <= s < t < out@.len() ==> places[s] < places[t],
                forall|c: int|
                    0 <= c < j && (#[trigger] cs[c]).parents@.contains(i) ==> out@.contains(
                        cs[c].hash,
                    ),
            decreases cs.len() - j,
        {
            if contains_place(&self.commits[j].parents, i) {
                let ghost before = out@;
                out.push(self.commits[j].hash);
                proof {
                    places = places.push(j as int);
                    assert(out@[before.len() as int] == cs[j as int].hash);
                    assert forall|c: int|
                        0 <= c < j + 1 && (#[trigger] cs[c]).parents@.contains(
                            i,
                        ) implies out@.contains(cs[c].hash) by {
                        if c < j {
                            let t = choose|t: int| 0 <= t < before.len() && before[t] == cs[c].hash;
                            assert(out@[t] == before[t]);
                        }
                    }
                }
            }
            j += 1;
        }
        proof {
            assert forall|s: int, t: int| 0 <= s < t < out@.len() implies index_of_hash(
                cs,
                #[trigger] out@[s],
            ) < index_of_hash(cs, #[trigger] out@[t]) by {
                lemma_index_of_hash(cs, places[s]);
                lemma_index_of_hash(cs, places[t]);
            }
            assert forall|t: int| 0 <= t < out@.len() implies is_child_hash(
                cs,
                i,
                #[trigger] out@[t],
            ) by {
                assert(cs[places[t]].parents@.contains(i));
            }
            assert forall|h: CommitHash| is_child_hash(cs, i, h) implies out@.contains(h) by {
                let c = choose|c: int|
                    0 <= c < cs.len() && (#[trigger] cs[c]).parents@.contains(i) && cs[c].hash == h;
                assert(out@.contains(cs[c].hash));
            }
        }
        Ok(out)
    }
}

} // verus!
