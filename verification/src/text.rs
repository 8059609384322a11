//! Small helpers on strings, stated over their characters.

use vstd::prelude::*;

verus! {

/// The strings of a vector, each as its sequence of characters.
pub open spec fn views_of(strings: Seq<String>) -> Seq<Seq<char>> {
    strings.map_values(|string: String| string@)
}

/// Whether two string slices hold the same characters.
pub fn str_eq(a: &str, b: &str) -> (same: bool)
    ensures
        same == (a@ == b@),
{
    String::from_str(a) == String::from_str(b)
}

/// `` ` `` + `subject` + `rest`: a message that quotes what it is about.
pub open spec fn quoted_message(subject: Seq<char>, rest: Seq<char>) -> Seq<char> {
    seq!['`'] + subject + rest
}

/// Builds the message `` `subject`` followed by `rest`.
pub fn quote_message(subject: &str, rest: &str) -> (message: String)
    ensures
        message@ == quoted_message(subject@, rest@),
{
    proof {
        reveal_strlit("`");
    }
    let mut message = String::from_str("`");
    message.append(subject);
    message.append(rest);
    assert(message@ =~= quoted_message(subject@, rest@));
    message
}

} // verus!
