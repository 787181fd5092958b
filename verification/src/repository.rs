//! The repository: a commit graph, its branches and tags, the checked-out
//! commit and the remotes, with every operation stated over that state.

use vstd::prelude::*;
use crate::types::{Branch, CommitHash, hex_text};
use crate::error::{Error, ErrorKind};
use crate::refs::{
    RefEntry, RefTable, ref_table, has_name, target_of, distinct_names, lemma_index_unique,
};
use crate::graph::{
    CommitContent, CommitRecord, Commits, dag_ok, distinct_hashes, has_hash, index_of_hash,
    lemma_index_of_hash,
};

verus! {

/// A remote repository, by name and URL.
#[derive(Debug)]
pub struct Remote {
    pub name: String,
    pub url: String,
}

/// A branch of a remote and the commit it was last seen on.
#[derive(Debug)]
pub struct RemoteBranch {
    pub remote: String,
    pub branch: String,
    pub target: CommitHash,
}

/// The remote-tracking branches as contracts see them.
pub type TrackingTable = Seq<(Seq<char>, Seq<char>, CommitHash)>;

/// The table that the entries stand for.
pub open spec fn tracking_table(rs: Seq<RemoteBranch>) -> TrackingTable {
    rs.map_values(|r: RemoteBranch| (r.remote@, r.branch@, r.target))
}

/// The table lists that branch of that remote.
pub open spec fn has_tracking(t: TrackingTable, remote: Seq<char>, branch: Seq<char>) -> bool {
    exists|k: int| 0 <= k < t.len() && (#[trigger] t[k]).0 == remote && t[k].1 == branch
}

/// The place of that branch of that remote, where the table lists it.
pub open spec fn index_of_tracking(t: TrackingTable, remote: Seq<char>, branch: Seq<char>) -> int {
    choose|k: int| 0 <= k < t.len() && (#[trigger] t[k]).0 == remote && t[k].1 == branch
}

/// Holds of the entries that are not of the remote `name`.
pub open spec fn not_of_remote(name: Seq<char>) -> spec_fn((Seq<char>, Seq<char>, CommitHash)) -> bool {
    |e: (Seq<char>, Seq<char>, CommitHash)| e.0 != name
}

/// No branch of a remote is listed twice, and each points to a commit of the graph.
pub open spec fn tracking_ok(cs: Commits, t: TrackingTable) -> bool {
    &&& forall|i: int, j: int|
        0 <= i < j < t.len() ==> !((#[trigger] t[i]).0 == (#[trigger] t[j]).0 && t[i].1 == t[j].1)
    &&& forall|k: int| 0 <= k < t.len() ==> has_hash(cs, (#[trigger] t[k]).2)
}

/// A repository: everything the operations read and change.
#[derive(Debug)]
pub struct Repository {
    /// Every commit, oldest first; the first is the initial commit.
    pub commits: Vec<CommitRecord>,
    pub branches: Vec<RefEntry>,
    pub tags: Vec<RefEntry>,
    /// The place of the checked-out commit.
    pub head: usize,
    /// The checked-out branch, unless the head is detached.
    pub attached: Option<Branch>,
    pub remotes: Vec<Remote>,
    /// The branches of the remotes, as the last fetch saw them.
    pub remote_branches: Vec<RemoteBranch>,
}

/// Every name is there once and points to a commit of the graph.
pub open spec fn table_ok(cs: Commits, t: RefTable) -> bool {
    &&& distinct_names(t)
    &&& forall|k: int| 0 <= k < t.len() ==> has_hash(cs, (#[trigger] t[k]).1)
}

/// The remotes as contracts see them: names and URLs, in order of addition.
pub open spec fn remote_table(rs: Seq<Remote>) -> Seq<(Seq<char>, Seq<char>)> {
    rs.map_values(|r: Remote| (r.name@, r.url@))
}

/// A remote of that name is there.
pub open spec fn has_remote(t: Seq<(Seq<char>, Seq<char>)>, name: Seq<char>) -> bool {
    exists|k: int| 0 <= k < t.len() && (#[trigger] t[k]).0 == name
}

/// The place of the remote of that name, where there is one.
pub open spec fn index_of_remote(t: Seq<(Seq<char>, Seq<char>)>, name: Seq<char>) -> int {
    choose|k: int| 0 <= k < t.len() && (#[trigger] t[k]).0 == name
}

/// No remote name occurs twice.
pub open spec fn distinct_remotes(t: Seq<(Seq<char>, Seq<char>)>) -> bool {
    forall|i: int, j: int| 0 <= i < j < t.len() ==> (#[trigger] t[i]).0 != (#[trigger] t[j]).0
}

/// The failure says that no commit has hash `h`: it is `NotFound` and carries
/// the hash as hexadecimal text.
pub open spec fn names_commit(e: Error, h: CommitHash) -> bool {
    e.kind() == ErrorKind::NotFound && e.message()@ == hex_text(h.hash@)
}

/// The failure for a hash that no commit of the graph has.
pub(crate) fn unknown_commit(commit_hash: &CommitHash) -> (e: Error)
    ensures
        names_commit(e, *commit_hash),
{
    Error::NotFound(commit_hash.to_hex())
}

/// The failure for an operation whose assumption does not hold, with the reason as given.
pub(crate) fn invalid(reason: &str) -> (e: Error)
    ensures
        e.kind() == ErrorKind::InvalidRepository,
        e.message()@ == reason@,
{
    Error::InvalidRepository(reason.to_owned())
}

impl Repository {
    /// The state is well formed: the graph is acyclic with one root, hashes
    /// and names are distinct, and the head and every name point into the graph.
    pub open spec fn wf(&self) -> bool {
        &&& dag_ok(self.commits@)
        &&& distinct_hashes(self.commits@)
        &&& self.head < self.commits@.len()
        &&& table_ok(self.commits@, self.branch_table())
        &&& table_ok(self.commits@, self.tag_table())
        &&& distinct_remotes(self.remote_table())
        &&& tracking_ok(self.commits@, self.tracking_table())
    }

    /// The remote-tracking branches: remote, branch and commit.
    pub open spec fn tracking_table(&self) -> TrackingTable {
        tracking_table(self.remote_branches@)
    }

    /// The branches: names and the commits they point to.
    pub open spec fn branch_table(&self) -> RefTable {
        ref_table(self.branches@)
    }

    /// The tags: names and the commits they point to.
    pub open spec fn tag_table(&self) -> RefTable {
        ref_table(self.tags@)
    }

    /// The remotes: names and URLs.
    pub open spec fn remote_table(&self) -> Seq<(Seq<char>, Seq<char>)> {
        remote_table(self.remotes@)
    }

    /// The hash of the checked-out commit.
    pub open spec fn head_hash(&self) -> CommitHash {
        self.commits@[self.head as int].hash
    }

    /// The place of a commit in the graph, if it is there.
    pub fn find_commit(&self, commit_hash: &CommitHash) -> (r: Option<usize>)
        requires
            self.wf(),
        ensures
            match r {
                Some(i) => has_hash(self.commits@, *commit_hash) && i == index_of_hash(
                    self.commits@,
                    *commit_hash,
                ) && i < self.commits@.len() && self.commits@[i as int].hash == *commit_hash,
                None => !has_hash(self.commits@, *commit_hash),
            },
    {
        let mut i: usize = 0;
        while i < self.commits.len()
            invariant
                self.wf(),
                i <= self.commits@.len(),
                forall|j: int| 0 <= j < i ==> (#[trigger] self.commits@[j]).hash != *commit_hash,
            decreases self.commits@.len() - i,
        {
            if self.commits[i].hash.same(commit_hash) {
                proof {
                    lemma_index_of_hash(self.commits@, i as int);
                }
                return Some(i);
            }
            i += 1;
        }
        None
    }

    /// A new repository whose one commit is the initial commit, with
    /// `init_commit_branch` created on it and checked out.
    pub fn init(
        init_commit_hash: CommitHash,
        init_commit_message: &str,
        init_commit_branch: &Branch,
    ) -> (r: Repository)
        ensures
            r.wf(),
            r.commits@.len() == 1,
            r.commits@[0].hash == init_commit_hash,
            r.commits@[0].content matches CommitContent::Plain { message, diff, .. }
                && message@ == init_commit_message@ && diff is None,
            r.head == 0,
            r.head_hash() == init_commit_hash,
            r.attached == Some(*init_commit_branch),
            r.branch_table() == seq![(init_commit_branch@, init_commit_hash)],
            has_name(r.branch_table(), init_commit_branch@),
            target_of(r.branch_table(), init_commit_branch@) == r.head_hash(),
            r.tag_table().len() == 0,
            r.remote_table().len() == 0,
            r.tracking_table().len() == 0,
    {
        let record = CommitRecord {
            hash: init_commit_hash,
            parents: Vec::new(),
            content: CommitContent::Plain {
                message: init_commit_message.to_string(),
                author_name: String::new(),
                author_email: String::new(),
                timestamp: 0,
                diff: None,
            },
        };
        let mut commits: Vec<CommitRecord> = Vec::new();
        commits.push(record);
        let mut branches: Vec<RefEntry> = Vec::new();
        branches.push(RefEntry { name: init_commit_branch.clone(), target: init_commit_hash });
        let r = Repository {
            commits,
            branches,
            tags: Vec::new(),
            head: 0,
            attached: Some(init_commit_branch.clone()),
            remotes: Vec::new(),
            remote_branches: Vec::new(),
        };
        proof {
            assert(r.commits@[0].hash == init_commit_hash);
            assert(r.branch_table() =~= seq![(init_commit_branch@, init_commit_hash)]);
            lemma_index_unique(r.branch_table(), init_commit_branch@, 0);
        }
        r
    }

    /// The hash of the current head.
    pub fn get_head(&self) -> (r: Result<CommitHash, Error>)
        requires
            self.wf(),
        ensures
            r == Ok::<CommitHash, Error>(self.head_hash()),
    {
        Ok(self.commits[self.head].hash)
    }

    /// The hash of the initial commit.
    pub fn get_initial_commit(&self) -> (r: Result<CommitHash, Error>)
        requires
            self.wf(),
        ensures
            r == Ok::<CommitHash, Error>(self.commits@[0].hash),
    {
        Ok(self.commits[0].hash)
    }
}

} // verus!
