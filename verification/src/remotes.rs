//! Remotes and the branches last seen on them.

use vstd::prelude::*;
use crate::types::CommitHash;
use crate::error::{Error, ErrorKind};
use crate::graph::has_hash;
use crate::repository::{
    Repository, Remote, RemoteBranch, unknown_commit, invalid, names_commit, has_remote,
    index_of_remote, has_tracking, index_of_tracking, tracking_table, tracking_ok, not_of_remote,
};

verus! {

impl Repository {
    /// The remotes, as pairs of name and URL, in order of addition.
    pub fn list_remotes(&self) -> (r: Result<Vec<(String, String)>, Error>)
        requires
            self.wf(),
        ensures
            r is Ok,
            r->Ok_0@.len() == self.remote_table().len(),
            forall|k: int|
                0 <= k < self.remote_table().len() ==> ((#[trigger] r->Ok_0@[k]).0@, r->Ok_0@[k].1@)
                    == self.remote_table()[k],
    {
        let mut out: Vec<(String, String)> = Vec::new();
        let mut k: usize = 0;
        while k < self.remotes.len()
            invariant
                k <= self.remotes@.len(),
                out@.len() == k,
                forall|j: int|
                    0 <= j < k ==> ((#[trigger] out@[j]).0@, out@[j].1@) == self.remote_table()[j],
            decreases self.remotes@.len() - k,
        {
            out.push((self.remotes[k].name.clone(), self.remotes[k].url.clone()));
            k += 1;
        }
        Ok(out)
    }

    /// The place of the remote of that name, if there is one.
    pub(crate) fn lookup_remote(&self, name: &String) -> (r: Option<usize>)
        ensures
            match r {
                Some(k) => k < self.remotes@.len() && self.remote_table()[k as int].0 == name@,
                None => !has_remote(self.remote_table(), name@),
            },
    {
        let mut k: usize = 0;
        while k < self.remotes.len()
            invariant
                k <= self.remotes@.len(),
                forall|j: int| 0 <= j < k ==> (#[trigger] self.remote_table()[j]).0 != name@,
            decreases self.remotes@.len() - k,
        {
            if self.remotes[k].name == *name {
                return Some(k);
            }
            k += 1;
        }
        None
    }

    /// Adds a remote under a name that no remote has.
    pub fn add_remote(&mut self, remote_name: String, remote_url: String) -> (r: Result<(), Error>)
        requires
            old(self).wf(),
        ensures
            final(self).wf(),
            match r {
                Ok(_) => {
                    &&& !has_remote(old(self).remote_table(), remote_name@)
                    &&& final(self).remote_table() == old(self).remote_table().push(
                        (remote_name@, remote_url@),
                    )
                },
                Err(e) => {
                    &&& has_remote(old(self).remote_table(), remote_name@)
                    &&& e.kind() == ErrorKind::InvalidRepository
                    &&& final(self).remotes == old(self).remotes
                },
            },
            final(self).commits == old(self).commits,
            final(self).branches == old(self).branches,
            final(self).tags == old(self).tags,
            final(self).head == old(self).head,
            final(self).attached == old(self).attached,
            final(self).remote_branches == old(self).remote_branches,
    {
        if self.lookup_remote(&remote_name).is_some() {
            return Err(invalid("a remote of that name exists"));
        }
        self.remotes.push(Remote { name: remote_name, url: remote_url });
        let ghost t = old(self).remote_table();
        let ghost u = self.remote_table();
        assert(u =~= t.push((remote_name@, remote_url@)));
        assert forall|i: int, j: int| 0 <= i < j < u.len() implies (#[trigger] u[i]).0 != (
        #[trigger] u[j]).0 by {
            if j == t.len() {
                assert(t[i].0 != remote_name@);
            } else {
                assert(t[i].0 != t[j].0);
            }
        }
        Ok(())
    }

    /// The remote-tracking branches of every remote but `remote_name`.
    fn tracking_without(&self, remote_name: &String) -> (kept: Vec<RemoteBranch>)
        requires
            self.wf(),
        ensures
            tracking_table(kept@) == self.tracking_table().filter(not_of_remote(remote_name@)),
            tracking_ok(self.commits@, tracking_table(kept@)),
    {
        let ghost t = self.tracking_table();
        let ghost keep = not_of_remote(remote_name@);
        let ghost mut places: Seq<int> = Seq::empty();
        let mut kept: Vec<RemoteBranch> = Vec::new();
        let mut j: usize = 0;
        proof {
            reveal(Seq::filter);
            assert(t.subrange(0, 0).filter(keep) =~= tracking_table(kept@));
        }
        while j < self.remote_branches.len()
            invariant
                self.wf(),
                t == self.tracking_table(),
                keep == not_of_remote(remote_name@),
                j <= t.len(),
                tracking_table(kept@) == t.subrange(0, j as int).filter(keep),
                places.len() == kept@.len(),
                forall|i: int|
                    0 <= i < kept@.len() ==> 0 <= (#[trigger] places[i]) < j && tracking_table(
                        kept@,
                    )[i] == t[places[i]],
                forall|a: int, b: int| 0 <= a < b < kept@.len() ==> places[a] < places[b],
            decreases t.len() - j,
        {
            let ghost before = tracking_table(kept@);
            proof {
                reveal(Seq::filter);
                assert(t.subrange(0, j + 1).drop_last() =~= t.subrange(0, j as int));
                assert(t.subrange(0, j + 1).last() == t[j as int]);
            }
            if !(self.remote_branches[j].remote == *remote_name) {
                kept.push(
                    RemoteBranch {
                        remote: self.remote_branches[j].remote.clone(),
                        branch: self.remote_branches[j].branch.clone(),
                        target: self.remote_branches[j].target,
                    },
                );
                proof {
                    places = places.push(j as int);
                    assert(tracking_table(kept@) =~= before.push(t[j as int]));
                }
            }
            j += 1;
        }
        proof {
            assert(t.subrange(0, t.len() as int) =~= t);
            let u = tracking_table(kept@);
            assert forall|a: int, b: int| 0 <= a < b < u.len() implies !((#[trigger] u[a]).0 == (
            #[trigger] u[b]).0 && u[a].1 == u[b].1) by {
                assert(!(t[places[a]].0 == t[places[b]].0 && t[places[a]].1 == t[places[b]].1));
            }
            assert forall|i: int| 0 <= i < u.len() implies has_hash(
                self.commits@,
                (#[trigger] u[i]).2,
            ) by {
                assert(has_hash(self.commits@, t[places[i]].2));
            }
        }
        kept
    }

    /// Removes the remote of that name, and with it the branches last seen on it.
    pub fn remove_remote(&mut self, remote_name: String) -> (r: Result<(), Error>)
        requires
            old(self).wf(),
        ensures
            final(self).wf(),
            match r {
                Ok(_) => {
                    &&& has_remote(old(self).remote_table(), remote_name@)
                    &&& final(self).remote_table() == old(self).remote_table().remove(
                        index_of_remote(old(self).remote_table(), remote_name@),
                    )
                    &&& !has_remote(final(self).remote_table(), remote_name@)
                    &&& final(self).tracking_table() == old(self).tracking_table().filter(
                        not_of_remote(remote_name@),
                    )
                },
                Err(e) => {
                    &&& !has_remote(old(self).remote_table(), remote_name@)
                    &&& e == Error::NotFound(remote_name)
                    &&& final(self).remotes == old(self).remotes
                    &&& final(self).remote_branches == old(self).remote_branches
                },
            },
            final(self).commits == old(self).commits,
            final(self).branches == old(self).branches,
            final(self).tags == old(self).tags,
            final(self).head == old(self).head,
            final(self).attached == old(self).attached,
    {
        let k = match self.lookup_remote(&remote_name) {
            Some(k) => k,
            None => {
                return Err(Error::NotFound(remote_name));
            },
        };
        let ghost t = self.remote_table();
        proof {
            let c = index_of_remote(t, remote_name@);
            if c < k {
                assert(t[c].0 != t[k as int].0);
            } else if k < c {
                assert(t[k as int].0 != t[c].0);
            }
        }
        let kept = self.tracking_without(&remote_name);
        self.remotes.remove(k);
        self.remote_branches = kept;
        let ghost u = self.remote_table();
        assert(u =~= t.remove(k as int));
        assert forall|i: int, j: int| 0 <= i < j < u.len() implies (#[trigger] u[i]).0 != (
        #[trigger] u[j]).0 by {
            let a = if i < k { i } else { i + 1 };
            let b = if j < k { j } else { j + 1 };
            assert(u[i] == t[a]);
            assert(u[j] == t[b]);
            assert(t[a].0 != t[b].0);
        }
        assert forall|i: int| 0 <= i < u.len() implies (#[trigger] u[i]).0 != remote_name@ by {
            let a = if i < k { i } else { i + 1 };
            assert(u[i] == t[a]);
            if a < k {
                assert(t[a].0 != t[k as int].0);
            } else {
                assert(t[k as int].0 != t[a].0);
            }
        }
        Ok(())
    }

    /// The place of that branch of that remote, if the table lists it.
    pub(crate) fn lookup_tracking(&self, remote: &String, branch: &String) -> (r: Option<usize>)
        requires
            self.wf(),
        ensures
            match r {
                Some(k) => {
                    &&& k < self.remote_branches@.len()
                    &&& has_tracking(self.tracking_table(), remote@, branch@)
                    &&& k == index_of_tracking(self.tracking_table(), remote@, branch@)
                },
                None => !has_tracking(self.tracking_table(), remote@, branch@),
            },
    {
        let ghost t = self.tracking_table();
        let mut k: usize = 0;
        while k < self.remote_branches.len()
            invariant
                self.wf(),
                t == self.tracking_table(),
                k <= t.len(),
                forall|j: int|
                    0 <= j < k ==> !((#[trigger] t[j]).0 == remote@ && t[j].1 == branch@),
            decreases t.len() - k,
        {
            if self.remote_branches[k].remote == *remote && self.remote_branches[k].branch
                == *branch {
                proof {
                    assert(t[k as int].0 == remote@ && t[k as int].1 == branch@);
                    let c = index_of_tracking(t, remote@, branch@);
                    if c < k {
                        assert(!(t[c].0 == t[k as int].0 && t[c].1 == t[k as int].1));
                    } else if k < c {
                        assert(!(t[k as int].0 == t[c].0 && t[k as int].1 == t[c].1));
                    }
                }
                return Some(k);
            }
            k += 1;
        }
        None
    }

    /// Records on which commit a fetch saw a branch of a remote. The remote
    /// and the commit must be known.
    pub fn track_remote_branch(
        &mut self,
        remote_name: String,
        branch_name: String,
        commit_hash: CommitHash,
    ) -> (r: Result<(), Error>)
        requires
            old(self).wf(),
        ensures
            final(self).wf(),
            match r {
                Ok(_) => {
                    let t = old(self).tracking_table();
                    &&& has_remote(old(self).remote_table(), remote_name@)
                    &&& has_hash(old(self).commits@, commit_hash)
                    &&& if has_tracking(t, remote_name@, branch_name@) {
                        final(self).tracking_table() == t.update(
                            index_of_tracking(t, remote_name@, branch_name@),
                            (remote_name@, branch_name@, commit_hash),
                        )
                    } else {
                        final(self).tracking_table() == t.push(
                            (remote_name@, branch_name@, commit_hash),
                        )
                    }
                },
                Err(e) => {
                    &&& if !has_remote(old(self).remote_table(), remote_name@) {
                        e == Error::NotFound(remote_name)
                    } else {
                        !has_hash(old(self).commits@, commit_hash) && names_commit(e, commit_hash)
                    }
                    &&& final(self).remote_branches == old(self).remote_branches
                },
            },
            final(self).commits == old(self).commits,
            final(self).branches == old(self).branches,
            final(self).tags == old(self).tags,
            final(self).head == old(self).head,
            final(self).attached == old(self).attached,
            final(self).remotes == old(self).remotes,
    {
        if self.lookup_remote(&remote_name).is_none() {
            return Err(Error::NotFound(remote_name));
        }
        if self.find_commit(&commit_hash).is_none() {
            return Err(unknown_commit(&commit_hash));
        }
        let ghost t = self.tracking_table();
        let entry = RemoteBranch { remote: remote_name, branch: branch_name, target: commit_hash };
        match self.lookup_tracking(&entry.remote, &entry.branch) {
            Some(k) => {
                self.remote_branches.set(k, entry);
                let ghost u = self.tracking_table();
                assert(u =~= t.update(k as int, (remote_name@, branch_name@, commit_hash)));
                assert forall|i: int, j: int| 0 <= i < j < u.len() implies !((#[trigger] u[i]).0 == (
                #[trigger] u[j]).0 && u[i].1 == u[j].1) by {
                    assert(!(t[i].0 == t[j].0 && t[i].1 == t[j].1));
                }
                assert forall|j: int| 0 <= j < u.len() implies has_hash(
                    self.commits@,
                    (#[trigger] u[j]).2,
                ) by {
                    if j != k {
                        assert(u[j] == t[j]);
                    }
                }
            },
            None => {
                self.remote_branches.push(entry);
                let ghost u = self.tracking_table();
                assert(u =~= t.push((remote_name@, branch_name@, commit_hash)));
                assert forall|i: int, j: int| 0 <= i < j < u.len() implies !((#[trigger] u[i]).0 == (
                #[trigger] u[j]).0 && u[i].1 == u[j].1) by {
                    if j == t.len() {
                        assert(!(t[i].0 == remote_name@ && t[i].1 == branch_name@));
                    } else {
                        assert(!(t[i].0 == t[j].0 && t[i].1 == t[j].1));
                    }
                }
                assert forall|j: int| 0 <= j < u.len() implies has_hash(
                    self.commits@,
                    (#[trigger] u[j]).2,
                ) by {
                    if j < t.len() {
                        assert(u[j] == t[j]);
                    }
                }
            },
        }
        Ok(())
    }

    /// The remote-tracking branches, as triples of remote, branch and commit.
    pub fn list_remote_tracking_branches(&self) -> (r: Result<
        Vec<(String, String, CommitHash)>,
        Error,
    >)
        requires
            self.wf(),
        ensures
            r is Ok,
            r->Ok_0@.len() == self.tracking_table().len(),
            forall|k: int|
                0 <= k < self.tracking_table().len() ==> (
                    (#[trigger] r->Ok_0@[k]).0@,
                    r->Ok_0@[k].1@,
                    r->Ok_0@[k].2,
                ) == self.tracking_table()[k],
    {
        let mut out: Vec<(String, String, CommitHash)> = Vec::new();
        let mut k: usize = 0;
        while k < self.remote_branches.len()
            invariant
                k <= self.remote_branches@.len(),
                out@.len() == k,
                forall|j: int|
                    0 <= j < k ==> ((#[trigger] out@[j]).0@, out@[j].1@, out@[j].2)
                        == self.tracking_table()[j],
            decreases self.remote_branches@.len() - k,
        {
            out.push(
                (
                    self.remote_branches[k].remote.clone(),
                    self.remote_branches[k].branch.clone(),
                    self.remote_branches[k].target,
                ),
            );
            k += 1;
        }
        Ok(out)
    }

    /// The commit on which the branch of the remote was last seen.
    pub fn locate_remote_tracking_branch(&self, remote_name: String, branch_name: String) -> (r:
        Result<CommitHash, Error>)
        requires
            self.wf(),
        ensures
            match r {
                Ok(h) => {
                    let t = self.tracking_table();
                    &&& has_tracking(t, remote_name@, branch_name@)
                    &&& h == t[index_of_tracking(t, remote_name@, branch_name@)].2
                },
                Err(e) => !has_tracking(self.tracking_table(), remote_name@, branch_name@)
                    && e == Error::NotFound(branch_name),
            },
    {
        match self.lookup_tracking(&remote_name, &branch_name) {
            Some(k) => Ok(self.remote_branches[k].target),
            None => Err(Error::NotFound(branch_name)),
        }
    }
}

} // verus!
