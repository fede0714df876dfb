//! Building the messages and names that the game shows.

use vstd::prelude::*;

verus! {

/// Wraps `String::from(char)` from std: the result holds the one character
/// that was given.
#[verifier::external_body]
pub(crate) fn string_of_char(c: char) -> (s: String)
    ensures
        s@ == seq![c],
{
    String::from(c)
}

/// The text `prefix`, then the character `c`, then `suffix`.
pub(crate) fn wrap_char(prefix: &str, c: char, suffix: &str) -> (s: String)
    ensures
        s@ == prefix@ + seq![c] + suffix@,
{
    let mut s = String::from_str(prefix);
    let cs = string_of_char(c);
    s.append(cs.as_str());
    s.append(suffix);
    s
}

/// The text `prefix` followed by `rest`.
pub(crate) fn join2(prefix: &str, rest: &str) -> (s: String)
    ensures
        s@ == prefix@ + rest@,
{
    let mut s = String::from_str(prefix);
    s.append(rest);
    s
}

} // verus!
