//! Identifiers shared by every module.

use vstd::prelude::*;
use vstd::string::*;

verus! {

/// The name of a branch.
pub type Branch = String;

/// The name of a tag.
pub type Tag = String;

/// The name of a member, as recorded in a commit's author field.
pub type MemberName = String;

/// Seconds since the Unix epoch.
pub type Timestamp = i64;

/// The content identifier of a commit. Two hashes are equal when their bytes are.
#[derive(Clone, Copy, Debug, PartialEq, Eq, Hash)]
pub struct CommitHash {
    pub hash: [u8; 20],
}

impl CommitHash {
    /// Byte-wise comparison.
    pub fn same(&self, other: &CommitHash) -> (r: bool)
        ensures
            r == (*self == *other),
    {
        let mut i: usize = 0;
        while i < 20
            invariant
                i <= 20,
                forall|k: int| 0 <= k < i ==> self.hash[k] == other.hash[k],
            decreases 20 - i,
        {
            if self.hash[i] != other.hash[i] {
                return false;
            }
            i += 1;
        }
        assert(self.hash =~= other.hash);
        true
    }
}

/// The sixteen hexadecimal digits, lower case.
pub open spec fn hex_digits() -> Seq<char> {
    seq!['0', '1', '2', '3', '4', '5', '6', '7', '8', '9', 'a', 'b', 'c', 'd', 'e', 'f']
}

/// The bytes written as hexadecimal digits, two for each byte, the high half first.
pub open spec fn hex_text(bytes: Seq<u8>) -> Seq<char> {
    Seq::new(
        2 * bytes.len(),
        |i: int|
            if i % 2 == 0 {
                hex_digits()[bytes[i / 2] as int / 16]
            } else {
                hex_digits()[bytes[i / 2] as int % 16]
            },
    )
}

/// One hexadecimal digit as text.
fn hex_digit(v: u8) -> (r: &'static str)
    requires
        v < 16,
    ensures
        r@ == seq![hex_digits()[v as int]],
{
    proof {
        reveal_strlit("0");
        reveal_strlit("1");
        reveal_strlit("2");
        reveal_strlit("3");
        reveal_strlit("4");
        reveal_strlit("5");
        reveal_strlit("6");
        reveal_strlit("7");
        reveal_strlit("8");
        reveal_strlit("9");
        reveal_strlit("a");
        reveal_strlit("b");
        reveal_strlit("c");
        reveal_strlit("d");
        reveal_strlit("e");
        reveal_strlit("f");
    }
    let r = match v {
        0 => "0",
        1 => "1",
        2 => "2",
        3 => "3",
        4 => "4",
        5 => "5",
        6 => "6",
        7 => "7",
        8 => "8",
        9 => "9",
        10 => "a",
        11 => "b",
        12 => "c",
        13 => "d",
        14 => "e",
        _ => "f",
    };
    assert(r@ =~= seq![hex_digits()[v as int]]);
    r
}

impl CommitHash {
    /// The hash as forty hexadecimal digits.
    pub fn to_hex(&self) -> (text: String)
        ensures
            text@ == hex_text(self.hash@),
            text@.len() == 40,
    {
        let mut text = String::new();
        let mut i: usize = 0;
        assert(text@ =~= hex_text(self.hash@.subrange(0, 0)));
        while i < 20
            invariant
                i <= 20,
                text@ == hex_text(self.hash@.subrange(0, i as int)),
            decreases 20 - i,
        {
            let b = self.hash[i];
            text.append(hex_digit(b / 16));
            text.append(hex_digit(b % 16));
            assert(text@ =~= hex_text(self.hash@.subrange(0, i + 1)));
            i += 1;
        }
        assert(self.hash@.subrange(0, 20) =~= self.hash@);
        text
    }
}

} // verus!
