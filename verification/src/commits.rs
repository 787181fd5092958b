//! New commits: made on the head, or brought in from elsewhere.

use vstd::prelude::*;
use crate::types::{CommitHash, Timestamp};
use crate::error::{Error, ErrorKind};
use crate::semantic::SemanticCommit;
use crate::refs::{
    RefEntry, has_name, index_of_name, lemma_index_unique, lookup_ref, law_moved_name_resolves,
};
use crate::graph::{
    CommitContent, CommitRecord, has_hash, index_of_hash, lemma_index_of_hash,
    lemma_push_keeps_hash,
};
use crate::repository::{Repository, unknown_commit, invalid, names_commit};

verus! {

impl Repository {
    /// Appends the record to the graph; nothing else changes.
    pub(crate) fn push_commit(&mut self, record: CommitRecord)
        requires
            old(self).wf(),
            !has_hash(old(self).commits@, record.hash),
            record.parents@.len() >= 1,
            forall|k: int|
                0 <= k < record.parents@.len() ==> record.parents@[k] < old(self).commits@.len(),
        ensures
            final(self).wf(),
            final(self).commits@ == old(self).commits@.push(record),
            final(self).branches == old(self).branches,
            final(self).tags == old(self).tags,
            final(self).head == old(self).head,
            final(self).attached == old(self).attached,
            final(self).remotes == old(self).remotes,
            final(self).remote_branches == old(self).remote_branches,
    {
        let ghost cs = self.commits@;
        proof {
            assert forall|k: int| 0 <= k < self.branch_table().len() implies has_hash(
                cs.push(record),
                (#[trigger] self.branch_table()[k]).1,
            ) by {
                lemma_push_keeps_hash(cs, record, self.branch_table()[k].1);
            }
            assert forall|k: int| 0 <= k < self.tag_table().len() implies has_hash(
                cs.push(record),
                (#[trigger] self.tag_table()[k]).1,
            ) by {
                lemma_push_keeps_hash(cs, record, self.tag_table()[k].1);
            }
            assert forall|k: int| 0 <= k < self.tracking_table().len() implies has_hash(
                cs.push(record),
                (#[trigger] self.tracking_table()[k]).2,
            ) by {
                lemma_push_keeps_hash(cs, record, self.tracking_table()[k].2);
            }
        }
        self.commits.push(record);
        proof {
            let ns = self.commits@;
            assert forall|a: int, b: int| 0 <= a < b < ns.len() implies (#[trigger] ns[a]).hash != (
            #[trigger] ns[b]).hash by {
                if b == cs.len() {
                    assert(cs[a].hash != record.hash);
                } else {
                    assert(cs[a].hash != cs[b].hash);
                }
            }
            assert forall|a: int| 0 < a < ns.len() implies (#[trigger] ns[a]).parents@.len()
                >= 1 by {
                if a < cs.len() {
                    assert(cs[a].parents@.len() >= 1);
                }
            }
            assert forall|a: int, k: int|
                0 <= a < ns.len() && 0 <= k < ns[a].parents@.len() implies (
            #[trigger] ns[a].parents@[k]) < a by {
                if a < cs.len() {
                    assert(cs[a].parents@[k] < a);
                }
            }
        }
    }

    /// Moves the head, and the checked-out branch where there is one, to the
    /// newest commit.
    pub(crate) fn advance_head(&mut self)
        requires
            old(self).wf(),
        ensures
            final(self).wf(),
            final(self).commits == old(self).commits,
            final(self).head == old(self).commits@.len() - 1,
            final(self).follows_head(old(self)),
            final(self).tags == old(self).tags,
            final(self).attached == old(self).attached,
            final(self).remotes == old(self).remotes,
            final(self).remote_branches == old(self).remote_branches,
    {
        let n = self.commits.len() - 1;
        let tip = self.commits[n].hash;
        self.head = n;
        let moved: Option<(usize, String)> = match &self.attached {
            Some(b) => match lookup_ref(&self.branches, b) {
                Some(k) => Some((k, b.clone())),
                None => None,
            },
            None => None,
        };
        proof {
            lemma_index_of_hash(self.commits@, n as int);
        }
        if let Some((k, name)) = moved {
            proof {
                lemma_index_unique(self.branch_table(), name@, k as int);
                law_moved_name_resolves(self.branch_table(), name@, tip);
            }
            self.branches.set(k, RefEntry { name, target: tip });
            assert(self.branch_table() =~= old(self).branch_table().update(k as int, (name@, tip)));
            assert forall|j: int| 0 <= j < self.branch_table().len() implies has_hash(
                self.commits@,
                (#[trigger] self.branch_table()[j]).1,
            ) by {
                if j != k {
                    assert(self.branch_table()[j] == old(self).branch_table()[j]);
                }
            }
        }
    }

    /// The checked-out branch, where there is one, points to the head; no
    /// other branch has moved since `before`.
    pub open spec fn follows_head(&self, before: &Repository) -> bool {
        if before.attached is Some && has_name(
            before.branch_table(),
            before.attached->Some_0@,
        ) {
            self.branch_table() == before.branch_table().update(
                index_of_name(before.branch_table(), before.attached->Some_0@),
                (before.attached->Some_0@, self.head_hash()),
            )
        } else {
            self.branches == before.branches
        }
    }

    /// The state after one commit has been appended as a child of the head of
    /// `before`, and checked out.
    pub open spec fn is_child_of_head(
        &self,
        before: &Repository,
        commit_hash: CommitHash,
        content: CommitContent,
    ) -> bool {
        let n = before.commits@.len() as int;
        &&& self.commits@.len() == n + 1
        &&& self.commits@.subrange(0, n) == before.commits@
        &&& self.commits@[n].hash == commit_hash
        &&& self.commits@[n].parents@ == seq![before.head]
        &&& self.commits@[n].content == content
        &&& self.head == n
        &&& self.follows_head(before)
        &&& self.tags == before.tags
        &&& self.attached == before.attached
        &&& self.remotes == before.remotes
        &&& self.remote_branches == before.remote_branches
    }

    /// Appends a commit, known to the backend as `commit_hash`, as a child of
    /// the head, and moves the head and the checked-out branch to it.
    pub fn create_commit(
        &mut self,
        commit_hash: CommitHash,
        commit_message: String,
        author_name: String,
        author_email: String,
        author_timestamp: Timestamp,
        diff: Option<String>,
    ) -> (r: Result<CommitHash, Error>)
        requires
            old(self).wf(),
        ensures
            final(self).wf(),
            match r {
                Ok(h) => {
                    &&& h == commit_hash
                    &&& !has_hash(old(self).commits@, commit_hash)
                    &&& final(self).is_child_of_head(
                        old(self),
                        commit_hash,
                        (CommitContent::Plain {
                            message: commit_message,
                            author_name,
                            author_email,
                            timestamp: author_timestamp,
                            diff,
                        }),
                    )
                },
                Err(e) => {
                    &&& has_hash(old(self).commits@, commit_hash)
                    &&& e.kind() == ErrorKind::InvalidRepository
                    &&& *final(self) == *old(self)
                },
            },
    {
        if self.find_commit(&commit_hash).is_some() {
            return Err(invalid("the commit is already there"));
        }
        let mut parents: Vec<usize> = Vec::new();
        parents.push(self.head);
        let record = CommitRecord {
            hash: commit_hash,
            parents,
            content: CommitContent::Plain {
                message: commit_message,
                author_name,
                author_email,
                timestamp: author_timestamp,
                diff,
            },
        };
        self.push_commit(record);
        self.advance_head();
        assert(self.commits@.subrange(0, old(self).commits@.len() as int) =~= old(self).commits@);
        Ok(commit_hash)
    }

    /// Appends a semantic commit as a child of the head. Only an empty diff or
    /// a change of the reserved state is accepted.
    pub fn create_semantic_commit(&mut self, commit_hash: CommitHash, commit: SemanticCommit) -> (r:
        Result<CommitHash, Error>)
        requires
            old(self).wf(),
        ensures
            final(self).wf(),
            match r {
                Ok(h) => {
                    &&& h == commit_hash
                    &&& commit.diff.committable()
                    &&& !has_hash(old(self).commits@, commit_hash)
                    &&& final(self).is_child_of_head(
                        old(self),
                        commit_hash,
                        CommitContent::Semantic(commit),
                    )
                },
                Err(e) => {
                    &&& !commit.diff.committable() || has_hash(old(self).commits@, commit_hash)
                    &&& e.kind() == ErrorKind::InvalidRepository
                    &&& *final(self) == *old(self)
                },
            },
    {
        if !commit.diff.is_committable() {
            return Err(invalid("the diff is neither empty nor a change of the reserved state"));
        }
        if self.find_commit(&commit_hash).is_some() {
            return Err(invalid("the commit is already there"));
        }
        let mut parents: Vec<usize> = Vec::new();
        parents.push(self.head);
        let record = CommitRecord {
            hash: commit_hash,
            parents,
            content: CommitContent::Semantic(commit),
        };
        self.push_commit(record);
        self.advance_head();
        assert(self.commits@.subrange(0, old(self).commits@.len() as int) =~= old(self).commits@);
        Ok(commit_hash)
    }

    /// The semantic commit that the commit was made from.
    pub fn read_semantic_commit(&self, commit_hash: CommitHash) -> (r: Result<
        &SemanticCommit,
        Error,
    >)
        requires
            self.wf(),
        ensures
            match r {
                Ok(sc) => has_hash(self.commits@, commit_hash) && self.commits@[index_of_hash(
                    self.commits@,
                    commit_hash,
                )].content == CommitContent::Semantic(*sc),
                Err(e) => if !has_hash(self.commits@, commit_hash) {
                    names_commit(e, commit_hash)
                } else {
                    self.commits@[index_of_hash(self.commits@, commit_hash)].content is Plain
                        && e.kind() == ErrorKind::InvalidRepository
                },
            },
    {
        let i = match self.find_commit(&commit_hash) {
            Some(i) => i,
            None => {
                return Err(unknown_commit(&commit_hash));
            },
        };
        match &self.commits[i].content {
            CommitContent::Semantic(sc) => Ok(sc),
            CommitContent::Plain { .. } => Err(invalid("the commit is not a semantic commit")),
        }
    }

    /// Records a commit that arrived from elsewhere, under its parents; the
    /// head and every name stay where they are.
    pub fn insert_commit(
        &mut self,
        commit_hash: CommitHash,
        parents: Vec<CommitHash>,
        content: CommitContent,
    ) -> (r: Result<(), Error>)
        requires
            old(self).wf(),
        ensures
            final(self).wf(),
            match r {
                Ok(_) => {
                    let n = old(self).commits@.len() as int;
                    &&& !has_hash(old(self).commits@, commit_hash)
                    &&& parents@.len() >= 1
                    &&& forall|k: int|
                        0 <= k < parents@.len() ==> has_hash(
                            old(self).commits@,
                            #[trigger] parents@[k],
                        )
                    &&& final(self).commits@.len() == n + 1
                    &&& final(self).commits@.subrange(0, n) == old(self).commits@
                    &&& final(self).commits@[n].hash == commit_hash
                    &&& final(self).commits@[n].content == content
                    &&& final(self).commits@[n].parents@.len() == parents@.len()
                    &&& forall|k: int|
                        0 <= k < parents@.len() ==> (#[trigger] final(self).commits@[n].parents@[k])
                            == index_of_hash(old(self).commits@, parents@[k])
                },
                Err(e) => {
                    &&& final(self).commits == old(self).commits
                    &&& if has_hash(old(self).commits@, commit_hash) || parents@.len() == 0 {
                        e.kind() == ErrorKind::InvalidRepository
                    } else {
                        exists|k: int|
                            0 <= k < parents@.len() && !has_hash(
                                old(self).commits@,
                                #[trigger] parents@[k],
                            ) && names_commit(e, parents@[k])
                    }
                },
            },
            final(self).branches == old(self).branches,
            final(self).tags == old(self).tags,
            final(self).head == old(self).head,
            final(self).attached == old(self).attached,
            final(self).remotes == old(self).remotes,
            final(self).remote_branches == old(self).remote_branches,
    {
        if self.find_commit(&commit_hash).is_some() {
            return Err(invalid("the commit is already there"));
        }
        if parents.len() == 0 {
            return Err(invalid("only the initial commit has no parent"));
        }
        let mut places: Vec<usize> = Vec::new();
        let mut k: usize = 0;
        while k < parents.len()
            invariant
                self.wf(),
                *self == *old(self),
                k <= parents@.len(),
                places@.len() == k,
                parents@.len() >= 1,
                !has_hash(self.commits@, commit_hash),
                forall|j: int|
                    0 <= j < k ==> has_hash(self.commits@, #[trigger] parents@[j]) && places@[j]
                        == index_of_hash(self.commits@, parents@[j]),
                forall|j: int| 0 <= j < k ==> (#[trigger] places@[j]) < self.commits@.len(),
            decreases parents@.len() - k,
        {
            match self.find_commit(&parents[k]) {
                Some(i) => {
                    places.push(i);
                },
                None => {
                    assert(!has_hash(self.commits@, parents@[k as int]));
                    return Err(unknown_commit(&parents[k]));
                },
            }
            k += 1;
        }
        let record = CommitRecord { hash: commit_hash, parents: places, content };
        self.push_commit(record);
        assert(self.commits@.subrange(0, old(self).commits@.len() as int) =~= old(self).commits@);
        Ok(())
    }
}

} // verus!
