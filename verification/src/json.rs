//! Lists of strings as JSON.
use vstd::prelude::*;
use crate::text;

verus! {

/// The JSON text of a list of strings.
pub uninterp spec fn json_text(v: Seq<Seq<char>>) -> Seq<char>;

/// The list of strings that a JSON text holds.
pub uninterp spec fn json_strings(s: Seq<char>) -> Option<Seq<Seq<char>>>;

/// `serde_json::to_string` on a list of strings, which has no value that it could refuse. Reading
/// the text gives the list back.
#[verifier::external_body]
pub(crate) fn write_strings(v: &Vec<String>) -> (r: String)
    ensures
        r@ == json_text(text::texts(v@)),
        json_strings(r@) == Some(text::texts(v@)),
{
    serde_json::to_string(v).expect("a list of strings has a JSON text")
}

/// `serde_json::from_str` into a list of strings, where the text is one.
#[verifier::external_body]
pub(crate) fn read_strings(s: &str) -> (r: Option<Vec<String>>)
    ensures
        r is Some == json_strings(s@) is Some,
        r matches Some(v) ==> json_strings(s@) == Some(text::texts(v@)),
{
    serde_json::from_str::<Vec<String>>(s).ok()
}

/// The list of strings that a column holds: the empty list where it holds nothing or no such list.
pub open spec fn strings_of(column: Option<Seq<char>>) -> Seq<Seq<char>> {
    match column {
        Some(s) => match json_strings(s) {
            Some(v) => v,
            None => seq![],
        },
        None => seq![],
    }
}

/// The list of strings that a column holds.
pub fn strings_in(column: &Option<String>) -> (r: Vec<String>)
    ensures
        text::texts(r@) == strings_of(text::opt_text(*column)),
{
    let held = match column {
        Some(s) => read_strings(s.as_str()),
        None => None,
    };
    match held {
        Some(v) => v,
        None => {
            let v: Vec<String> = Vec::new();
            assert(text::texts(v@) =~= seq![]);
            v
        },
    }
}

/// A column holds the list of its JSON text; one that is empty or holds no list of strings stands
/// for the empty list.
pub proof fn lemma_columns_hold_lists(s: Seq<char>, v: Seq<Seq<char>>)
    ensures
        json_strings(s) == Some(v) ==> strings_of(Some(s)) == v,
        json_strings(s) is None ==> strings_of(Some(s)).len() == 0,
        strings_of(None).len() == 0,
{
}

} // verus!
