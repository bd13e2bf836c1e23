//! References from one memory to another, and their removal when the other is gone.
use vstd::prelude::*;
use crate::bytes;
use crate::json;
use crate::row::{MemoryRow, MemoryRowV};
use crate::table;
use crate::text;

verus! {

/// The texts that are not among `gone`.
pub open spec fn others(ids: Seq<Seq<char>>, gone: Seq<Seq<char>>) -> Seq<Seq<char>> {
    ids.filter(|x: Seq<char>| !gone.contains(x))
}

/// The row without references to the memories that are gone. A row that has none is not touched.
pub open spec fn cleaned(r: MemoryRowV, gone: Seq<Seq<char>>) -> MemoryRowV {
    let ids = json::strings_of(r.related_ids);
    if others(ids, gone).len() == ids.len() {
        r
    } else {
        MemoryRowV { related_ids: Some(json::json_text(others(ids, gone))), ..r }
    }
}

/// No reference of the row leads to a memory that is gone.
pub open spec fn refers_to_none(r: MemoryRowV, gone: Seq<Seq<char>>) -> bool {
    forall|k: int|
        0 <= k < json::strings_of(r.related_ids).len() ==> !gone.contains(
            #[trigger] json::strings_of(r.related_ids)[k],
        )
}

/// Whether the list holds the text.
pub(crate) fn lists(v: &[String], s: &str) -> (r: bool)
    ensures
        r == text::texts(v@).contains(s@),
{
    let mut i: usize = 0;
    while i < v.len()
        invariant
            i <= v@.len(),
            forall|k: int| 0 <= k < i ==> (#[trigger] v@[k])@ != s@,
        decreases v@.len() - i,
    {
        if bytes::same_text(v[i].as_str(), s) {
            assert(text::texts(v@)[i as int] == s@);
            return true;
        }
        i += 1;
    }
    assert(!text::texts(v@).contains(s@)) by {
        if text::texts(v@).contains(s@) {
            let k = choose|k: int| 0 <= k < text::texts(v@).len() && text::texts(v@)[k] == s@;
            assert(v@[k]@ == s@);
        }
    }
    false
}

fn without(ids: &Vec<String>, gone: &Vec<String>) -> (r: Vec<String>)
    ensures
        text::texts(r@) == others(text::texts(ids@), text::texts(gone@)),
{
    let mut r: Vec<String> = Vec::new();
    let mut i: usize = 0;
    let ghost all = text::texts(ids@);
    let ghost out = text::texts(gone@);
    let ghost stays = |x: Seq<char>| !out.contains(x);
    proof {
        reveal(Seq::filter);
        assert(all.take(0).filter(stays) =~= text::texts(r@));
    }
    while i < ids.len()
        invariant
            i <= ids@.len(),
            all == text::texts(ids@),
            out == text::texts(gone@),
            stays == (|x: Seq<char>| !out.contains(x)),
            text::texts(r@) == all.take(i as int).filter(stays),
        decreases ids@.len() - i,
    {
        proof {
            reveal(Seq::filter);
            assert(all.take(i + 1).drop_last() =~= all.take(i as int));
            assert(all.take(i + 1).last() == ids@[i as int]@);
        }
        if !lists(gone, ids[i].as_str()) {
            let ghost before = text::texts(r@);
            r.push(ids[i].clone());
            assert(text::texts(r@) =~= before.push(ids@[i as int]@));
        }
        i += 1;
    }
    assert(all.take(all.len() as int) =~= all);
    r
}

/// Takes the references to the memories that are gone out of the row.
pub fn clean_row(row: &mut MemoryRow, gone: &Vec<String>)
    ensures
        final(row)@ == cleaned(old(row)@, text::texts(gone@)),
        refers_to_none(final(row)@, text::texts(gone@)),
{
    let ids = json::strings_in(&row.related_ids);
    let kept = without(&ids, gone);
    let ghost out = text::texts(gone@);
    let ghost all = text::texts(ids@);
    let ghost stays = |x: Seq<char>| !out.contains(x);
    proof {
        assert(others(all, out) == all.filter(stays));
        broadcast use vstd::seq_lib::group_filter_ensures;

        table::lemma_filter_keeps_all(all, stays);
    }
    if kept.len() != ids.len() {
        row.related_ids = Some(json::write_strings(&kept));
    }
}

/// Only references to memories that are gone are taken out: the others stay, in their order, and
/// so does every other column.
pub proof fn lemma_only_dead_references_go(
    r: MemoryRowV,
    gone: Seq<Seq<char>>,
    a: Seq<Seq<char>>,
    x: Seq<char>,
)
    ensures
        others(Seq::<Seq<char>>::empty(), gone) == Seq::<Seq<char>>::empty(),
        gone.contains(x) ==> others(a.push(x), gone) == others(a, gone),
        !gone.contains(x) ==> others(a.push(x), gone) == others(a, gone).push(x),
        cleaned(r, gone) == (MemoryRowV { related_ids: cleaned(r, gone).related_ids, ..r }),
        ({
            let ids = json::strings_of(r.related_ids);
            &&& (forall|i: int| 0 <= i < ids.len() ==> !gone.contains(#[trigger] ids[i]))
                ==> cleaned(r, gone) == r
            &&& (exists|i: int| 0 <= i < ids.len() && gone.contains(#[trigger] ids[i]))
                ==> cleaned(r, gone).related_ids == Some(json::json_text(others(ids, gone)))
        }),
{
    reveal(Seq::filter);
    assert(others(Seq::<Seq<char>>::empty(), gone) =~= Seq::<Seq<char>>::empty());
    assert(a.push(x).drop_last() =~= a);
    let ids = json::strings_of(r.related_ids);
    let p = |y: Seq<char>| !gone.contains(y);
    if forall|i: int| 0 <= i < ids.len() ==> !gone.contains(#[trigger] ids[i]) {
        table::lemma_filter_all_pass(ids, p);
    }
    if exists|i: int| 0 <= i < ids.len() && gone.contains(#[trigger] ids[i]) {
        let i = choose|i: int| 0 <= i < ids.len() && gone.contains(#[trigger] ids[i]);
        table::lemma_filter_keeps_all(ids, p);
        if ids.filter(p).len() == ids.len() {
            let at = table::filter_positions(ids, p);
            assert(ids.filter(p)[i] == ids[at[i]]);
            assert(p(ids.filter(p)[i]));
        }
    }
}

/// A row refers to none of the memories that are gone exactly if no reference in it is to one.
pub proof fn lemma_refers_to_none(r: MemoryRowV, gone: Seq<Seq<char>>, k: int)
    requires
        refers_to_none(r, gone),
        0 <= k < json::strings_of(r.related_ids).len(),
    ensures
        !gone.contains(json::strings_of(r.related_ids)[k]),
{
}

} // verus!
