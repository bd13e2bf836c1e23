//! Identifiers for new rows.
use vstd::prelude::*;

verus! {

/// The text has the form of an identifier: 26 characters, each a digit or a capital letter.
pub open spec fn is_id(s: Seq<char>) -> bool {
    &&& s.len() == 26
    &&& forall|i: int| 0 <= i < s.len() ==> ('0' <= #[trigger] s[i] <= '9' || 'A' <= s[i] <= 'Z')
}

/// `ulid::Ulid::new`, as text: an identifier made of the time and a random number, in 26 digits and
/// capital letters. Which one it is, and that it differs from others, rests on chance and is left
/// unsaid.
#[verifier::external_body]
pub(crate) fn new_id() -> (r: String)
    ensures
        is_id(r@),
{
    ulid::Ulid::new().to_string()
}

/// An identifier is 26 characters long and holds no other characters than digits and capital
/// letters.
pub proof fn lemma_identifiers(s: Seq<char>, i: int)
    requires
        is_id(s),
        0 <= i < s.len(),
    ensures
        s.len() == 26,
        s[i] != '-',
        s[i] != ' ',
        48 <= s[i] as int <= 57 || 65 <= s[i] as int <= 90,
{
}

} // verus!
