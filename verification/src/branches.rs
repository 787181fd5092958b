//! Branches, and which of them is checked out.

use vstd::prelude::*;
use crate::types::{Branch, CommitHash};
use crate::error::{Error, ErrorKind};
use crate::refs::{
    RefEntry, has_name, index_of_name, target_of, lemma_index_unique, lookup_ref, names_of,
    names_pointing_at, names_match, law_created_name_resolves, law_moved_name_resolves,
    law_removed_name_is_gone,
};
use crate::graph::has_hash;
use crate::repository::{Repository, unknown_commit, invalid, names_commit};

verus! {

/// What one call of `create_branch(name, h)` makes of a repository, by its
/// contract: the pair is appended where the commit is known and the name is
/// free, and nothing changes where the call fails.
pub open spec fn after_create_branch(
    before: Repository,
    after: Repository,
    name: Seq<char>,
    h: CommitHash,
) -> bool {
    &&& after.commits == before.commits
    &&& if has_hash(before.commits@, h) && !has_name(before.branch_table(), name) {
        after.branch_table() == before.branch_table().push((name, h))
    } else {
        after.branches == before.branches
    }
}

impl Repository {
    /// The names of all branches, in order of creation.
    pub fn list_branches(&self) -> (r: Result<Vec<Branch>, Error>)
        requires
            self.wf(),
        ensures
            r is Ok,
            r->Ok_0@.len() == self.branch_table().len(),
            forall|k: int|
                0 <= k < self.branch_table().len() ==> (#[trigger] r->Ok_0@[k])@
                    == self.branch_table()[k].0,
    {
        Ok(names_of(&self.branches))
    }

    /// Creates a branch on a commit of the graph, under a name that no branch has.
    pub fn create_branch(&mut self, branch_name: Branch, commit_hash: CommitHash) -> (r: Result<
        (),
        Error,
    >)
        requires
            old(self).wf(),
        ensures
            final(self).wf(),
            after_create_branch(*old(self), *final(self), branch_name@, commit_hash),
            match r {
                Ok(_) => {
                    &&& has_hash(old(self).commits@, commit_hash)
                    &&& !has_name(old(self).branch_table(), branch_name@)
                    &&& final(self).branch_table() == old(self).branch_table().push(
                        (branch_name@, commit_hash),
                    )
                },
                Err(e) => {
                    &&& final(self).branches == old(self).branches
                    &&& if !has_hash(old(self).commits@, commit_hash) {
                        names_commit(e, commit_hash)
                    } else {
                        has_name(old(self).branch_table(), branch_name@) && e.kind()
                            == ErrorKind::InvalidRepository
                    }
                },
            },
            final(self).commits == old(self).commits,
            final(self).tags == old(self).tags,
            final(self).head == old(self).head,
            final(self).attached == old(self).attached,
            final(self).remotes == old(self).remotes,
            final(self).remote_branches == old(self).remote_branches,
    {
        if self.find_commit(&commit_hash).is_none() {
            return Err(unknown_commit(&commit_hash));
        }
        if lookup_ref(&self.branches, &branch_name).is_some() {
            return Err(invalid("a branch of that name exists"));
        }
        proof {
            law_created_name_resolves(
                self.branch_table(),
                branch_name@,
                commit_hash,
            );
        }
        self.branches.push(RefEntry { name: branch_name, target: commit_hash });
        assert(self.branch_table() =~= old(self).branch_table().push((branch_name@, commit_hash)));
        Ok(())
    }

    /// The commit that the branch points to.
    pub fn locate_branch(&self, branch: Branch) -> (r: Result<CommitHash, Error>)
        requires
            self.wf(),
        ensures
            match r {
                Ok(h) => has_name(self.branch_table(), branch@) && h == target_of(
                    self.branch_table(),
                    branch@,
                ),
                Err(e) => !has_name(self.branch_table(), branch@) && e == Error::NotFound(branch),
            },
    {
        match lookup_ref(&self.branches, &branch) {
            Some(k) => {
                proof {
                    lemma_index_unique(self.branch_table(), branch@, k as int);
                }
                Ok(self.branches[k].target)
            },
            None => Err(Error::NotFound(branch)),
        }
    }

    /// The branches that point to the commit.
    pub fn get_branches(&self, commit_hash: CommitHash) -> (r: Result<Vec<Branch>, Error>)
        requires
            self.wf(),
        ensures
            r is Ok,
            names_match(self.branch_table(), r->Ok_0@, commit_hash),
    {
        Ok(names_pointing_at(&self.branches, &commit_hash))
    }

    /// Points an existing branch to another commit of the graph. The head
    /// follows where the branch is the checked-out one.
    pub fn move_branch(&mut self, branch: Branch, commit_hash: CommitHash) -> (r: Result<
        (),
        Error,
    >)
        requires
            old(self).wf(),
        ensures
            final(self).wf(),
            match r {
                Ok(_) => {
                    &&& has_name(old(self).branch_table(), branch@)
                    &&& has_hash(old(self).commits@, commit_hash)
                    &&& final(self).branch_table() == old(self).branch_table().update(
                        index_of_name(old(self).branch_table(), branch@),
                        (branch@, commit_hash),
                    )
                    &&& if old(self).attached is Some && old(self).attached->Some_0@ == branch@ {
                        final(self).head_hash() == commit_hash
                    } else {
                        final(self).head == old(self).head
                    }
                },
                Err(e) => {
                    &&& final(self).branches == old(self).branches
                    &&& final(self).head == old(self).head
                    &&& if !has_name(old(self).branch_table(), branch@) {
                        e == Error::NotFound(branch)
                    } else {
                        !has_hash(old(self).commits@, commit_hash) && names_commit(e, commit_hash)
                    }
                },
            },
            final(self).commits == old(self).commits,
            final(self).tags == old(self).tags,
            final(self).attached == old(self).attached,
            final(self).remotes == old(self).remotes,
            final(self).remote_branches == old(self).remote_branches,
    {
        let k = match lookup_ref(&self.branches, &branch) {
            Some(k) => k,
            None => {
                return Err(Error::NotFound(branch));
            },
        };
        let i = match self.find_commit(&commit_hash) {
            Some(i) => i,
            None => {
                return Err(unknown_commit(&commit_hash));
            },
        };
        proof {
            lemma_index_unique(self.branch_table(), branch@, k as int);
            law_moved_name_resolves(self.branch_table(), branch@, commit_hash);
        }
        let follows = match &self.attached {
            Some(b) => *b == branch,
            None => false,
        };
        self.branches.set(k, RefEntry { name: branch, target: commit_hash });
        if follows {
            self.head = i;
        }
        assert(self.branch_table() =~= old(self).branch_table().update(
            k as int,
            (branch@, commit_hash),
        ));
        assert forall|j: int| 0 <= j < self.branch_table().len() implies has_hash(
            self.commits@,
            (#[trigger] self.branch_table()[j]).1,
        ) by {
            if j != k {
                assert(self.branch_table()[j] == old(self).branch_table()[j]);
            }
        }
        Ok(())
    }

    /// Deletes the branch. The head stays on its commit, detached, where the
    /// branch was the checked-out one.
    pub fn delete_branch(&mut self, branch: Branch) -> (r: Result<(), Error>)
        requires
            old(self).wf(),
        ensures
            final(self).wf(),
            match r {
                Ok(_) => {
                    &&& has_name(old(self).branch_table(), branch@)
                    &&& final(self).branch_table() == old(self).branch_table().remove(
                        index_of_name(old(self).branch_table(), branch@),
                    )
                    &&& !has_name(final(self).branch_table(), branch@)
                    &&& if old(self).attached is Some && old(self).attached->Some_0@ == branch@ {
                        final(self).attached is None
                    } else {
                        final(self).attached == old(self).attached
                    }
                },
                Err(e) => {
                    &&& !has_name(old(self).branch_table(), branch@)
                    &&& e == Error::NotFound(branch)
                    &&& final(self).branches == old(self).branches
                    &&& final(self).attached == old(self).attached
                },
            },
            final(self).commits == old(self).commits,
            final(self).tags == old(self).tags,
            final(self).head == old(self).head,
            final(self).remotes == old(self).remotes,
            final(self).remote_branches == old(self).remote_branches,
    {
        let k = match lookup_ref(&self.branches, &branch) {
            Some(k) => k,
            None => {
                return Err(Error::NotFound(branch));
            },
        };
        proof {
            lemma_index_unique(self.branch_table(), branch@, k as int);
            law_removed_name_is_gone(self.branch_table(), branch@);
        }
        let follows = match &self.attached {
            Some(b) => *b == branch,
            None => false,
        };
        self.branches.remove(k);
        if follows {
            self.attached = None;
        }
        assert(self.branch_table() =~= old(self).branch_table().remove(k as int));
        assert forall|j: int| 0 <= j < self.branch_table().len() implies has_hash(
            self.commits@,
            (#[trigger] self.branch_table()[j]).1,
        ) by {
            let a = if j < k { j } else { j + 1 };
            assert(self.branch_table()[j] == old(self).branch_table()[a]);
        }
        Ok(())
    }

    /// Checks out the branch: the head moves to its commit.
    pub fn checkout(&mut self, branch: Branch) -> (r: Result<(), Error>)
        requires
            old(self).wf(),
        ensures
            final(self).wf(),
            match r {
                Ok(_) => {
                    &&& has_name(old(self).branch_table(), branch@)
                    &&& final(self).head_hash() == target_of(old(self).branch_table(), branch@)
                    &&& final(self).attached == Some(branch)
                },
                Err(e) => {
                    &&& !has_name(old(self).branch_table(), branch@)
                    &&& e == Error::NotFound(branch)
                    &&& final(self).head == old(self).head
                    &&& final(self).attached == old(self).attached
                },
            },
            final(self).commits == old(self).commits,
            final(self).branches == old(self).branches,
            final(self).tags == old(self).tags,
            final(self).remotes == old(self).remotes,
            final(self).remote_branches == old(self).remote_branches,
    {
        let k = match lookup_ref(&self.branches, &branch) {
            Some(k) => k,
            None => {
                return Err(Error::NotFound(branch));
            },
        };
        proof {
            lemma_index_unique(self.branch_table(), branch@, k as int);
        }
        let target = self.branches[k].target;
        assert(has_hash(self.commits@, self.branch_table()[k as int].1));
        match self.find_commit(&target) {
            Some(i) => {
                self.head = i;
                self.attached = Some(branch);
                Ok(())
            },
            None => Err(Error::NotFound(branch)),
        }
    }

    /// Checks out the commit and leaves the head detached.
    pub fn checkout_detach(&mut self, commit_hash: CommitHash) -> (r: Result<(), Error>)
        requires
            old(self).wf(),
        ensures
            final(self).wf(),
            match r {
                Ok(_) => {
                    &&& has_hash(old(self).commits@, commit_hash)
                    &&& final(self).head_hash() == commit_hash
                    &&& final(self).attached is None
                },
                Err(e) => {
                    &&& !has_hash(old(self).commits@, commit_hash)
                    &&& names_commit(e, commit_hash)
                    &&& final(self).head == old(self).head
                    &&& final(self).attached == old(self).attached
                },
            },
            final(self).commits == old(self).commits,
            final(self).branches == old(self).branches,
            final(self).tags == old(self).tags,
            final(self).remotes == old(self).remotes,
            final(self).remote_branches == old(self).remote_branches,
    {
        match self.find_commit(&commit_hash) {
            Some(i) => {
                self.head = i;
                self.attached = None;
                Ok(())
            },
            None => Err(unknown_commit(&commit_hash)),
        }
    }
}

} // verus!
