//! The queue of raw tool output that waits for extraction.
use vstd::prelude::*;
use vstd::string::*;
use crate::bytes;
use crate::error::{ErrorV, IcmError, IcmResult};
use crate::order;
use crate::relations;
use crate::table;
use crate::text;
use crate::time;

verus! {

/// A statement of the database takes at most this many values.
pub const MAX_SQL_VARIABLES: usize = 32766;

/// One piece of output: `(id, project, tool_name, raw_output, captured_at)`.
pub type PendingRow = (String, String, String, String, String);

/// The mathematical reading of a piece of output.
#[verifier::ext_equal]
pub struct PendingV {
    pub id: Seq<char>,
    pub project: Seq<char>,
    pub tool_name: Seq<char>,
    pub raw_output: Seq<char>,
    pub captured_at: Seq<char>,
}

/// The mathematical reading of a piece of output.
pub open spec fn pending_view(r: PendingRow) -> PendingV {
    PendingV {
        id: r.0@,
        project: r.1@,
        tool_name: r.2@,
        raw_output: r.3@,
        captured_at: r.4@,
    }
}

/// The readings of pieces of output.
pub open spec fn pending_views(v: Seq<PendingRow>) -> Seq<PendingV> {
    v.map_values(|r: PendingRow| pending_view(r))
}

/// The queue.
pub struct Pending {
    rows: Vec<PendingRow>,
}

/// No two pieces have the same identifier.
pub open spec fn distinct_ids(rows: Seq<PendingV>) -> bool {
    forall|i: int, j: int|
        0 <= i < j < rows.len() ==> (#[trigger] rows[i]).id != (#[trigger] rows[j]).id
}

/// The piece has this identifier.
pub open spec fn has_id(id: Seq<char>) -> spec_fn(PendingV) -> bool {
    |r: PendingV| r.id == id
}

/// The pieces, the oldest first; pieces of the same time keep their order.
pub open spec fn oldest_first(rows: Seq<PendingV>) -> Seq<PendingV> {
    order::picked(
        rows,
        order::ordered(
            rows.len(),
            order::by_text(rows.map_values(|r: PendingV| r.captured_at), false),
        ),
    )
}

/// The piece has none of these identifiers.
pub open spec fn has_none_of(ids: Seq<Seq<char>>) -> spec_fn(PendingV) -> bool {
    |r: PendingV| !ids.contains(r.id)
}

impl Pending {
    /// The pieces, in the order in which they came.
    pub closed spec fn rows(&self) -> Seq<PendingV> {
        pending_views(self.rows@)
    }

    /// What holds of the queue at all times.
    pub open spec fn wf(&self) -> bool {
        distinct_ids(self.rows())
    }

    /// An empty queue.
    pub fn new() -> (r: Pending)
        ensures
            r.wf(),
            r.rows() == Seq::<PendingV>::empty(),
    {
        let r = Pending { rows: Vec::new() };
        assert(r.rows() =~= Seq::<PendingV>::empty());
        r
    }

    /// The queue of the given pieces, where no two of them have the same identifier.
    pub fn from_rows(rows: Vec<PendingRow>) -> (r: Option<Pending>)
        ensures
            r is Some == distinct_ids(pending_views(rows@)),
            r matches Some(q) ==> q.rows() == pending_views(rows@),
    {
        let ghost all = pending_views(rows@);
        let mut j: usize = 0;
        while j < rows.len()
            invariant
                all == pending_views(rows@),
                j <= rows@.len(),
                distinct_ids(all.take(j as int)),
            decreases rows@.len() - j,
        {
            assert(all[j as int] == pending_view(rows@[j as int]));
            let mut i: usize = 0;
            while i < j
                invariant
                    all == pending_views(rows@),
                    i <= j < rows@.len(),
                    all[j as int] == pending_view(rows@[j as int]),
                    forall|k: int| 0 <= k < i ==> (#[trigger] all[k]).id != all[j as int].id,
                decreases j - i,
            {
                assert(all[i as int] == pending_view(rows@[i as int]));
                if bytes::same_text(rows[i].0.as_str(), rows[j].0.as_str()) {
                    assert(!distinct_ids(all));
                    return None;
                }
                i += 1;
            }
            proof {
                let next = all.take(j + 1);
                assert forall|a: int, b: int| 0 <= a < b < next.len() implies (#[trigger] next[a]).id
                    != (#[trigger] next[b]).id by {
                    if b < j {
                        assert(all.take(j as int)[a].id != all.take(j as int)[b].id);
                    }
                }
            }
            j += 1;
        }
        assert(all.take(all.len() as int) =~= all);
        Some(Pending { rows })
    }

    /// The number of pieces.
    pub fn count(&self) -> (r: usize)
        ensures
            r == self.rows().len(),
    {
        self.rows.len()
    }

    /// The piece at a position.
    pub fn row(&self, i: usize) -> (r: &PendingRow)
        requires
            i < self.rows().len(),
        ensures
            pending_view(*r) == self.rows()[i as int],
    {
        &self.rows[i]
    }

    /// Puts a piece of output into the queue. An identifier that is taken is refused.
    pub fn enqueue(&mut self, row: PendingRow) -> (r: IcmResult<()>)
        requires
            old(self).wf(),
        ensures
            final(self).wf(),
            match table::find(old(self).rows(), has_id(row.0@)) {
                Some(_) => {
                    &&& final(self).rows() == old(self).rows()
                    &&& r matches Err(e) && e@ == ErrorV::Database(
                        "UNIQUE constraint failed: pending_extractions.id"@,
                    )
                },
                None => {
                    &&& r is Ok
                    &&& final(self).rows() == old(self).rows().push(pending_view(row))
                },
            },
    {
        let ghost rows = self.rows();
        let ghost new = pending_view(row);
        let mut i: usize = 0;
        while i < self.rows.len()
            invariant
                self.rows() == rows,
                distinct_ids(rows),
                rows.len() == self.rows@.len(),
                i <= rows.len(),
                forall|k: int| 0 <= k < i ==> (#[trigger] rows[k]).id != row.0@,
            decreases rows.len() - i,
        {
            assert(rows[i as int] == pending_view(self.rows@[i as int]));
            if bytes::same_text(self.rows[i].0.as_str(), row.0.as_str()) {
                proof {
                    table::lemma_found(rows, has_id(row.0@), i as int);
                }
                return Err(
                    IcmError::Database(
                        "UNIQUE constraint failed: pending_extractions.id".to_owned(),
                    ),
                );
            }
            i += 1;
        }
        proof {
            table::lemma_not_found(rows, has_id(row.0@));
        }
        self.rows.push(row);
        assert(self.rows() =~= rows.push(new));
        Ok(())
    }

    /// The oldest pieces, at most `limit` of them.
    pub fn list(&self, limit: usize) -> (r: Vec<PendingRow>)
        ensures
            pending_views(r@) == table::at_most(oldest_first(self.rows()), limit as nat),
    {
        let ghost rows = self.rows();
        let ghost times = rows.map_values(|r: PendingV| r.captured_at);
        let mut keys: Vec<&str> = Vec::new();
        let mut i: usize = 0;
        assert(text::slices(keys@) =~= times.take(0));
        while i < self.rows.len()
            invariant
                rows == self.rows(),
                rows.len() == self.rows@.len(),
                times == rows.map_values(|r: PendingV| r.captured_at),
                i <= rows.len(),
                text::slices(keys@) == times.take(i as int),
            decreases rows.len() - i,
        {
            let key = self.rows[i].4.as_str();
            let ghost before = text::slices(keys@);
            assert(rows[i as int] == pending_view(self.rows@[i as int]));
            keys.push(key);
            assert(text::slices(keys@) =~= before.push(key@));
            assert(times.take(i + 1) =~= times.take(i as int).push(times[i as int]));
            i += 1;
        }
        assert(times.take(i as int) =~= times);
        let sorted = order::order_texts(&keys, false);
        assert(text::slices(keys@).len() == keys@.len());
        let ghost wanted = oldest_first(rows);
        let ghost goal = table::at_most(wanted, limit as nat);
        let mut r: Vec<PendingRow> = Vec::new();
        let mut k: usize = 0;
        assert(pending_views(r@) =~= goal.take(0));
        while k < sorted.len() && k < limit
            invariant
                rows == self.rows(),
                rows.len() == self.rows@.len(),
                k <= sorted@.len(),
                k <= limit,
                sorted@.len() == rows.len(),
                forall|i: int| 0 <= i < sorted@.len() ==> #[trigger] sorted@[i] < rows.len(),
                wanted == order::picked(rows, order::positions(sorted@)),
                goal == table::at_most(wanted, limit as nat),
                pending_views(r@) == goal.take(k as int),
            decreases sorted@.len() - k,
        {
            let from = &self.rows[sorted[k]];
            let copy = (
                from.0.clone(),
                from.1.clone(),
                from.2.clone(),
                from.3.clone(),
                from.4.clone(),
            );
            let ghost before = pending_views(r@);
            let ghost reading = pending_view(copy);
            assert(reading == goal[k as int]);
            r.push(copy);
            assert(pending_views(r@) =~= before.push(reading));
            assert(goal.take(k + 1) =~= goal.take(k as int).push(goal[k as int]));
            k += 1;
        }
        assert(goal.len() == k);
        assert(goal.take(k as int) =~= goal);
        r
    }

    /// Removes the pieces with these identifiers, and returns how many there were. More
    /// identifiers than a statement takes are refused.
    pub fn delete(&mut self, ids: &[String]) -> (r: IcmResult<usize>)
        requires
            old(self).wf(),
        ensures
            final(self).wf(),
            if ids@.len() > MAX_SQL_VARIABLES {
                &&& r matches Err(e) && e@ is Database
                &&& final(self).rows() == old(self).rows()
            } else {
                &&& r matches Ok(n) && n + final(self).rows().len() == old(self).rows().len()
                &&& final(self).rows() == old(self).rows().filter(
                    has_none_of(text::texts(ids@)),
                )
            },
    {
        if ids.len() > MAX_SQL_VARIABLES {
            return Err(IcmError::Database("too many SQL variables".to_owned()));
        }
        let ghost rows = self.rows();
        let ghost keep = has_none_of(text::texts(ids@));
        let mut goes: Vec<bool> = Vec::new();
        while goes.len() < self.rows.len()
            invariant
                rows == self.rows(),
                rows.len() == self.rows@.len(),
                keep == has_none_of(text::texts(ids@)),
                goes@.len() <= rows.len(),
                forall|i: int| 0 <= i < goes@.len() ==> #[trigger] goes@[i] == !keep(rows[i]),
            decreases rows.len() - goes@.len(),
        {
            assert(rows[goes@.len() as int] == pending_view(self.rows@[goes@.len() as int]));
            goes.push(relations::lists(ids, self.rows[goes.len()].0.as_str()));
        }
        let ghost f = |r: PendingRow| pending_view(r);
        assert(self.rows@.map_values(f) =~= rows);
        let gone = table::take_out::<PendingRow, PendingV>(&mut self.rows, &goes, Ghost(f), Ghost(keep));
        proof {
            assert(self.rows() =~= self.rows@.map_values(f));
            lemma_filter_keeps_distinct(rows, keep);
        }
        Ok(gone.len())
    }
}

proof fn lemma_filter_keeps_distinct(rows: Seq<PendingV>, p: spec_fn(PendingV) -> bool)
    requires
        distinct_ids(rows),
    ensures
        distinct_ids(rows.filter(p)),
{
    let at = table::filter_positions(rows, p);
    let out = rows.filter(p);
    assert forall|i: int, j: int| 0 <= i < j < out.len() implies (#[trigger] out[i]).id != (
    #[trigger] out[j]).id by {
        assert(at[i] < at[j]);
        assert(out[i] == rows[at[i]] && out[j] == rows[at[j]]);
    }
}

/// In the queue with the oldest first, no piece stands behind a younger one, and no piece is lost.
pub proof fn lemma_oldest_first(rows: Seq<PendingV>)
    ensures
        oldest_first(rows).len() == rows.len(),
        forall|i: int, j: int|
            0 <= i < j < rows.len() ==> !bytes::text_before(
                (#[trigger] oldest_first(rows)[j]).captured_at,
                (#[trigger] oldest_first(rows)[i]).captured_at,
            ),
        oldest_first(rows).to_multiset() == rows.to_multiset(),
{
    let times = rows.map_values(|r: PendingV| r.captured_at);
    let before = order::by_text(times, false);
    order::lemma_by_text_ranks(times, false);
    order::lemma_ordered(rows.len(), before);
    let o = order::ordered(rows.len(), before);
    assert forall|i: int, j: int| 0 <= i < j < rows.len() implies !bytes::text_before(
        (#[trigger] oldest_first(rows)[j]).captured_at,
        (#[trigger] oldest_first(rows)[i]).captured_at,
    ) by {
        assert(!before(o[j], o[i]));
        assert(times[o[i]] == rows[o[i]].captured_at && times[o[j]] == rows[o[j]].captured_at);
    }
    order::lemma_picked_is_permutation(rows, o);
}

/// Where the times of the pieces are such as the clock gives, the oldest piece stands first.
pub proof fn lemma_oldest_first_in_time(rows: Seq<PendingV>)
    requires
        forall|i: int| 0 <= i < rows.len() ==> time::keeps_time((#[trigger] rows[i]).captured_at),
    ensures
        forall|i: int, j: int|
            0 <= i < j < rows.len() ==> !time::is_earlier(
                time::time_of((#[trigger] oldest_first(rows)[j]).captured_at),
                time::time_of((#[trigger] oldest_first(rows)[i]).captured_at),
            ),
{
    lemma_oldest_first(rows);
    let out = oldest_first(rows);
    let times = rows.map_values(|r: PendingV| r.captured_at);
    let before = order::by_text(times, false);
    order::lemma_by_text_ranks(times, false);
    order::lemma_ordered(rows.len(), before);
    assert forall|i: int, j: int| 0 <= i < j < rows.len() implies !time::is_earlier(
        time::time_of((#[trigger] out[j]).captured_at),
        time::time_of((#[trigger] out[i]).captured_at),
    ) by {
        let o = order::ordered(rows.len(), before);
        assert(out[i] == rows[o[i]] && out[j] == rows[o[j]]);
        time::lemma_text_order_is_time_order(out[j].captured_at, out[i].captured_at);
    }
}

/// What was put into the queue is there until it is removed, and is gone then.
pub proof fn lemma_removed_pieces_are_gone(rows: Seq<PendingV>, ids: Seq<Seq<char>>, piece: PendingV)
    ensures
        rows.filter(has_none_of(ids)).contains(piece) == (rows.contains(piece) && !ids.contains(
            piece.id,
        )),
{
    table::lemma_filter_members(rows, has_none_of(ids), piece);
}

/// A piece is read field by field: identifier, project, tool, raw output, time.
pub proof fn lemma_piece_is_read_field_by_field(r: PendingRow)
    ensures
        pending_view(r).id == r.0@,
        pending_view(r).project == r.1@,
        pending_view(r).tool_name == r.2@,
        pending_view(r).raw_output == r.3@,
        pending_view(r).captured_at == r.4@,
        pending_views(seq![r]).len() == 1,
        pending_views(seq![r])[0] == pending_view(r),
{
}

} // verus!
