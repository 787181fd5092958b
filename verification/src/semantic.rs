//! Commits read as governance actions.

use vstd::prelude::*;
use vstd::string::*;
use crate::types::{MemberName, Timestamp};

verus! {

/// A 256-bit digest of content that is kept outside the reserved state.
#[derive(Clone, Copy, Debug, PartialEq, Eq, Hash)]
pub struct Hash256 {
    pub hash: [u8; 32],
}

/// The configuration that the working tree of a commit holds.
#[derive(Clone, Debug, PartialEq, Eq)]
pub struct ReservedState {
    pub members: Vec<MemberName>,
    pub consensus_leader_order: Vec<MemberName>,
    pub version: String,
}

/// What a commit changes.
#[derive(Clone, Debug, PartialEq, Eq)]
pub enum Diff {
    /// Nothing.
    Empty,
    /// The reserved state only; the new state is given.
    Reserved(Box<ReservedState>),
    /// Content outside the reserved state, known by its digest.
    NonReserved(Hash256),
    /// Both.
    General(Box<ReservedState>, Hash256),
}

/// A commit with abstracted diff.
#[derive(Clone, Debug, PartialEq, Eq)]
pub struct SemanticCommit {
    pub title: String,
    pub body: String,
    pub diff: Diff,
    /// Metadata of the physical commit only.
    pub author: MemberName,
    pub timestamp: Timestamp,
}

impl Diff {
    /// Only an empty diff or a change of the reserved state can be committed.
    pub open spec fn committable(&self) -> bool {
        self is Empty || self is Reserved
    }

    /// Whether a semantic commit may carry this diff.
    #[verifier::when_used_as_spec(committable)]
    pub fn is_committable(&self) -> (r: bool)
        ensures
            r == self.committable(),
    {
        match self {
            Diff::Empty => true,
            Diff::Reserved(_) => true,
            _ => false,
        }
    }
}

/// The text has no line break.
pub open spec fn one_line(text: Seq<char>) -> bool {
    forall|i: int| 0 <= i < text.len() ==> text[i] != '\n'
}

/// The message of the physical commit that stands for a semantic commit: the
/// title, an empty line, the body.
pub open spec fn message_text(title: Seq<char>, body: Seq<char>) -> Seq<char> {
    title + seq!['\n', '\n'] + body
}

/// What decoding `text` gives: the one pair of a one-line title and a body
/// whose message is `text`, or nothing where there is no such pair.
pub open spec fn decodes_to(text: Seq<char>, r: Option<(Seq<char>, Seq<char>)>) -> bool {
    match r {
        Some((title, body)) => one_line(title) && text == message_text(title, body),
        None => forall|title: Seq<char>, body: Seq<char>|
            one_line(title) ==> text != #[trigger] message_text(title, body),
    }
}

/// A message with a one-line title has its first line break right behind the
/// title, and a second one behind that.
pub proof fn lemma_message_shape(title: Seq<char>, body: Seq<char>)
    requires
        one_line(title),
    ensures
        message_text(title, body).len() == title.len() + 2 + body.len(),
        forall|i: int| 0 <= i < title.len() ==> message_text(title, body)[i] != '\n',
        message_text(title, body)[title.len() as int] == '\n',
        message_text(title, body)[title.len() as int + 1] == '\n',
        message_text(title, body).subrange(0, title.len() as int) == title,
        message_text(title, body).subrange(
            title.len() as int + 2,
            message_text(title, body).len() as int,
        ) == body,
{
    let text = message_text(title, body);
    assert forall|i: int| 0 <= i < title.len() implies text[i] != '\n' by {
        assert(text[i] == title[i]);
    }
    assert(text.subrange(0, title.len() as int) =~= title);
    assert(text.subrange(title.len() as int + 2, text.len() as int) =~= body);
}

/// Decoding the message of a one-line title and a body gives back the title
/// and the body.
pub proof fn law_message_round_trip(
    title: Seq<char>,
    body: Seq<char>,
    r: Option<(Seq<char>, Seq<char>)>,
)
    requires
        one_line(title),
        decodes_to(message_text(title, body), r),
    ensures
        r == Some((title, body)),
{
    lemma_message_shape(title, body);
    match r {
        Some((t, b)) => {
            lemma_message_shape(t, b);
            if t.len() < title.len() {
                assert(message_text(title, body)[t.len() as int] != '\n');
            } else if title.len() < t.len() {
                assert(message_text(t, b)[title.len() as int] != '\n');
            }
        },
        None => {
            assert(message_text(title, body) == message_text(title, body));
        },
    }
}

/// The message of the physical commit for the title and the body.
pub fn encode_message(title: &String, body: &String) -> (text: String)
    ensures
        text@ == message_text(title@, body@),
{
    proof {
        reveal_strlit("\n\n");
    }
    let mut text = title.clone();
    text.append("\n\n");
    assert("\n\n"@ =~= seq!['\n', '\n']);
    text.append(body.as_str());
    text
}

/// The title and the body of a message, where the message is a one-line
/// title, an empty line and a body; nothing where it is not.
pub fn decode_message(text: &String) -> (r: Option<(String, String)>)
    ensures
        decodes_to(
            text@,
            match r {
                Some((title, body)) => Some((title@, body@)),
                None => None,
            },
        ),
{
    let s = text.as_str();
    let n = s.unicode_len();
    let mut i: usize = 0;
    while i < n
        invariant
            s@ == text@,
            n == s@.len(),
            i <= n,
            forall|j: int| 0 <= j < i ==> s@[j] != '\n',
        decreases n - i,
    {
        if s.get_char(i) == '\n' {
            if i + 1 < n && s.get_char(i + 1) == '\n' {
                let title = s.substring_char(0, i).to_owned();
                let body = s.substring_char(i + 2, n).to_owned();
                assert(text@ =~= message_text(title@, body@));
                return Some((title, body));
            }
            proof {
                assert forall|title: Seq<char>, body: Seq<char>| one_line(title) implies text@
                    != #[trigger] message_text(title, body) by {
                    lemma_message_shape(title, body);
                    if text@ == message_text(title, body) {
                        if title.len() < i {
                            assert(s@[title.len() as int] == '\n');
                        }
                    }
                }
            }
            return None;
        }
        i += 1;
    }
    proof {
        assert forall|title: Seq<char>, body: Seq<char>| one_line(title) implies text@
            != #[trigger] message_text(title, body) by {
            lemma_message_shape(title, body);
        }
    }
    None
}

impl SemanticCommit {
    /// The message of the physical commit that stands for this commit.
    pub fn message(&self) -> (text: String)
        ensures
            text@ == message_text(self.title@, self.body@),
    {
        encode_message(&self.title, &self.body)
    }
}

} // verus!
