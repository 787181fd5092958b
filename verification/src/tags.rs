//! Tags.

use vstd::prelude::*;
use crate::types::{CommitHash, Tag};
use crate::error::{Error, ErrorKind};
use crate::refs::{
    RefEntry, has_name, index_of_name, target_of, lemma_index_unique, lookup_ref, names_of,
    names_pointing_at, names_match, law_created_name_resolves, law_removed_name_is_gone,
};
use crate::graph::has_hash;
use crate::repository::{Repository, unknown_commit, invalid, names_commit};

verus! {

impl Repository {
    /// The names of all tags, in order of creation.
    pub fn list_tags(&self) -> (r: Result<Vec<Tag>, Error>)
        requires
            self.wf(),
        ensures
            r is Ok,
            r->Ok_0@.len() == self.tag_table().len(),
            forall|k: int|
                0 <= k < self.tag_table().len() ==> (#[trigger] r->Ok_0@[k])@
                    == self.tag_table()[k].0,
    {
        Ok(names_of(&self.tags))
    }

    /// Creates a tag on a commit of the graph, under a name that no tag has.
    pub fn create_tag(&mut self, tag: Tag, commit_hash: CommitHash) -> (r: Result<
        (),
        Error,
    >)
        requires
            old(self).wf(),
        ensures
            final(self).wf(),
            match r {
                Ok(_) => {
                    &&& has_hash(old(self).commits@, commit_hash)
                    &&& !has_name(old(self).tag_table(), tag@)
                    &&& final(self).tag_table() == old(self).tag_table().push(
                        (tag@, commit_hash),
                    )
                },
                Err(e) => {
                    &&& final(self).tags == old(self).tags
                    &&& if !has_hash(old(self).commits@, commit_hash) {
                        names_commit(e, commit_hash)
                    } else {
                        has_name(old(self).tag_table(), tag@) && e.kind()
                            == ErrorKind::InvalidRepository
                    }
                },
            },
            final(self).commits == old(self).commits,
            final(self).branches == old(self).branches,
            final(self).head == old(self).head,
            final(self).attached == old(self).attached,
            final(self).remotes == old(self).remotes,
            final(self).remote_branches == old(self).remote_branches,
    {
        if self.find_commit(&commit_hash).is_none() {
            return Err(unknown_commit(&commit_hash));
        }
        if lookup_ref(&self.tags, &tag).is_some() {
            return Err(invalid("a tag of that name exists"));
        }
        proof {
            law_created_name_resolves(
                self.tag_table(),
                tag@,
                commit_hash,
            );
        }
        self.tags.push(RefEntry { name: tag, target: commit_hash });
        assert(self.tag_table() =~= old(self).tag_table().push((tag@, commit_hash)));
        Ok(())
    }

    /// The commit that the tag points to.
    pub fn locate_tag(&self, tag: Tag) -> (r: Result<CommitHash, Error>)
        requires
            self.wf(),
        ensures
            match r {
                Ok(h) => has_name(self.tag_table(), tag@) && h == target_of(
                    self.tag_table(),
                    tag@,
                ),
                Err(e) => !has_name(self.tag_table(), tag@) && e == Error::NotFound(tag),
            },
    {
        match lookup_ref(&self.tags, &tag) {
            Some(k) => {
                proof {
                    lemma_index_unique(self.tag_table(), tag@, k as int);
                }
                Ok(self.tags[k].target)
            },
            None => Err(Error::NotFound(tag)),
        }
    }

    /// The tags that point to the commit.
    pub fn get_tag(&self, commit_hash: CommitHash) -> (r: Result<Vec<Tag>, Error>)
        requires
            self.wf(),
        ensures
            r is Ok,
            names_match(self.tag_table(), r->Ok_0@, commit_hash),
    {
        Ok(names_pointing_at(&self.tags, &commit_hash))
    }

    /// Removes the tag.
    pub fn remove_tag(&mut self, tag: Tag) -> (r: Result<(), Error>)
        requires
            old(self).wf(),
        ensures
            final(self).wf(),
            match r {
                Ok(_) => {
                    &&& has_name(old(self).tag_table(), tag@)
                    &&& final(self).tag_table() == old(self).tag_table().remove(
                        index_of_name(old(self).tag_table(), tag@),
                    )
                    &&& !has_name(final(self).tag_table(), tag@)
                },
                Err(e) => {
                    &&& !has_name(old(self).tag_table(), tag@)
                    &&& e == Error::NotFound(tag)
                    &&& final(self).tags == old(self).tags
                },
            },
            final(self).commits == old(self).commits,
            final(self).branches == old(self).branches,
            final(self).head == old(self).head,
            final(self).attached == old(self).attached,
            final(self).remotes == old(self).remotes,
            final(self).remote_branches == old(self).remote_branches,
    {
        let k = match lookup_ref(&self.tags, &tag) {
            Some(k) => k,
            None => {
                return Err(Error::NotFound(tag));
            },
        };
        proof {
            lemma_index_unique(self.tag_table(), tag@, k as int);
            law_removed_name_is_gone(self.tag_table(), tag@);
        }
        self.tags.remove(k);
        assert(self.tag_table() =~= old(self).tag_table().remove(k as int));
        assert forall|j: int| 0 <= j < self.tag_table().len() implies has_hash(
            self.commits@,
            (#[trigger] self.tag_table()[j]).1,
        ) by {
            let a = if j < k { j } else { j + 1 };
            assert(self.tag_table()[j] == old(self).tag_table()[a]);
        }
        Ok(())
    }
}

} // verus!
