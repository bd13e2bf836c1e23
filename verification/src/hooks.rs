//! Telemetry of hooks: what ran, when, how long and how it ended.
use vstd::prelude::*;
use vstd::string::*;
use crate::bytes;
use crate::error::{ErrorV, IcmError, IcmResult};
use crate::order;
use crate::table;
use crate::text;
use crate::time;
use crate::time::Timestamp;

verus! {

/// One run of a hook, as it is reported.
#[derive(Debug)]
pub struct HookEventInsert {
    pub event: String,
    pub project: Option<String>,
    pub session_id: Option<String>,
    pub tool_name: Option<String>,
    pub duration_ms: Option<i64>,
    pub exit_code: i32,
    pub payload_size: Option<i64>,
    pub note: Option<String>,
}

/// One row of the table. The time is an RFC 3339 text.
#[derive(Debug, PartialEq, Eq)]
pub struct HookRow {
    pub id: i64,
    pub ts: String,
    pub event: String,
    pub project: Option<String>,
    pub session_id: Option<String>,
    pub tool_name: Option<String>,
    pub duration_ms: Option<i64>,
    pub exit_code: i32,
    pub payload_size: Option<i64>,
    pub note: Option<String>,
}

/// The mathematical reading of a row.
#[verifier::ext_equal]
pub struct HookRowV {
    pub id: i64,
    pub ts: Seq<char>,
    pub event: Seq<char>,
    pub project: Option<Seq<char>>,
    pub session_id: Option<Seq<char>>,
    pub tool_name: Option<Seq<char>>,
    pub duration_ms: Option<i64>,
    pub exit_code: i32,
    pub payload_size: Option<i64>,
    pub note: Option<Seq<char>>,
}

impl View for HookRow {
    type V = HookRowV;

    open spec fn view(&self) -> HookRowV {
        HookRowV {
            id: self.id,
            ts: self.ts@,
            event: self.event@,
            project: text::opt_text(self.project),
            session_id: text::opt_text(self.session_id),
            tool_name: text::opt_text(self.tool_name),
            duration_ms: self.duration_ms,
            exit_code: self.exit_code,
            payload_size: self.payload_size,
            note: text::opt_text(self.note),
        }
    }
}

/// One run of a hook, as it is read back.
#[derive(Debug)]
pub struct HookEvent {
    pub id: i64,
    pub ts: Timestamp,
    pub event: String,
    pub project: Option<String>,
    pub session_id: Option<String>,
    pub tool_name: Option<String>,
    pub duration_ms: Option<i64>,
    pub exit_code: i32,
    pub payload_size: Option<i64>,
    pub note: Option<String>,
}

/// The mathematical reading of a run.
#[verifier::ext_equal]
pub struct HookEventV {
    pub id: i64,
    pub ts: (i64, u32),
    pub event: Seq<char>,
    pub project: Option<Seq<char>>,
    pub session_id: Option<Seq<char>>,
    pub tool_name: Option<Seq<char>>,
    pub duration_ms: Option<i64>,
    pub exit_code: i32,
    pub payload_size: Option<i64>,
    pub note: Option<Seq<char>>,
}

impl View for HookEvent {
    type V = HookEventV;

    open spec fn view(&self) -> HookEventV {
        HookEventV {
            id: self.id,
            ts: self.ts@,
            event: self.event@,
            project: text::opt_text(self.project),
            session_id: text::opt_text(self.session_id),
            tool_name: text::opt_text(self.tool_name),
            duration_ms: self.duration_ms,
            exit_code: self.exit_code,
            payload_size: self.payload_size,
            note: text::opt_text(self.note),
        }
    }
}

/// The run that a row stands for. A time that cannot be read counts as `now`.
pub open spec fn event_of_row(r: HookRowV, now: (i64, u32)) -> HookEventV {
    HookEventV {
        id: r.id,
        ts: time::dt_of(r.ts, now),
        event: r.event,
        project: r.project,
        session_id: r.session_id,
        tool_name: r.tool_name,
        duration_ms: r.duration_ms,
        exit_code: r.exit_code,
        payload_size: r.payload_size,
        note: r.note,
    }
}

/// The row that holds a reported run.
pub open spec fn row_of_event(id: int, ts: Seq<char>, ev: HookEventInsert) -> HookRowV {
    HookRowV {
        id: id as i64,
        ts,
        event: ev.event@,
        project: text::opt_text(ev.project),
        session_id: text::opt_text(ev.session_id),
        tool_name: text::opt_text(ev.tool_name),
        duration_ms: ev.duration_ms,
        exit_code: ev.exit_code,
        payload_size: ev.payload_size,
        note: text::opt_text(ev.note),
    }
}

/// The run that a row stands for.
pub fn row_to_event(row: &HookRow, now: Timestamp) -> (r: HookEvent)
    ensures
        r@ == event_of_row(row@, now@),
{
    HookEvent {
        id: row.id,
        ts: time::parse_dt(row.ts.as_str(), now),
        event: row.event.clone(),
        project: text::copy_opt(&row.project),
        session_id: text::copy_opt(&row.session_id),
        tool_name: text::copy_opt(&row.tool_name),
        duration_ms: row.duration_ms,
        exit_code: row.exit_code,
        payload_size: row.payload_size,
        note: text::copy_opt(&row.note),
    }
}

/// What holds of the table at all times: the numbers of the rows ascend from one.
pub open spec fn is_table(rows: Seq<HookRowV>) -> bool {
    &&& forall|i: int, j: int|
        0 <= i < j < rows.len() ==> (#[trigger] rows[i]).id < (#[trigger] rows[j]).id
    &&& forall|i: int| 0 <= i < rows.len() ==> (#[trigger] rows[i]).id > 0
}

/// The number that the next row gets.
pub open spec fn next_id(rows: Seq<HookRowV>) -> int {
    if rows.len() == 0 {
        1
    } else {
        rows.last().id + 1
    }
}

/// The row is one of this event, where one is given.
pub open spec fn is_event(event: Option<Seq<char>>) -> spec_fn(HookRowV) -> bool {
    |r: HookRowV| event matches Some(e) ==> r.event == e
}

/// The runs that rows stand for.
pub open spec fn events_of(rows: Seq<HookRowV>, now: (i64, u32)) -> Seq<HookEventV> {
    rows.map_values(|r: HookRowV| event_of_row(r, now))
}

// ---------------------------------------------------------------------------
// Statistics
// ---------------------------------------------------------------------------

/// What is known of the runs of one event.
///
/// The mean duration is `duration_total / duration_count`, or zero where no run has a duration.
#[derive(Debug)]
pub struct HookStatsRow {
    pub event: String,
    pub count: i64,
    pub error_count: i64,
    pub duration_total: i128,
    pub duration_count: i64,
    pub p50_duration_ms: i64,
    pub p99_duration_ms: i64,
}

/// The mathematical reading of the statistics of one event.
#[verifier::ext_equal]
pub struct HookStatsV {
    pub event: Seq<char>,
    pub count: int,
    pub error_count: int,
    pub duration_total: int,
    pub duration_count: int,
    pub p50_duration_ms: i64,
    pub p99_duration_ms: i64,
}

impl View for HookStatsRow {
    type V = HookStatsV;

    open spec fn view(&self) -> HookStatsV {
        HookStatsV {
            event: self.event@,
            count: self.count as int,
            error_count: self.error_count as int,
            duration_total: self.duration_total as int,
            duration_count: self.duration_count as int,
            p50_duration_ms: self.p50_duration_ms,
            p99_duration_ms: self.p99_duration_ms,
        }
    }
}

/// The row is no older than this time.
pub open spec fn is_since(since: Seq<char>) -> spec_fn(HookRowV) -> bool {
    |r: HookRowV| !time::is_before_time(r.ts, since)
}

/// The row is of a run of this event that is no older than this time.
pub open spec fn counts_for(since: Seq<char>, event: Seq<char>) -> spec_fn(HookRowV) -> bool {
    |r: HookRowV| r.event == event && !time::is_before_time(r.ts, since)
}

/// The run ended with an error.
pub open spec fn failed() -> spec_fn(HookRowV) -> bool {
    |r: HookRowV| r.exit_code != 0
}

/// The durations of the runs that have one.
pub open spec fn durations(rows: Seq<HookRowV>) -> Seq<i64>
    decreases rows.len(),
{
    if rows.len() == 0 {
        seq![]
    } else {
        let before = durations(rows.drop_last());
        match rows.last().duration_ms {
            Some(d) => before.push(d),
            None => before,
        }
    }
}

/// The sum of numbers.
pub open spec fn total(s: Seq<i64>) -> int
    decreases s.len(),
{
    if s.len() == 0 {
        0
    } else {
        total(s.drop_last()) + s.last()
    }
}

/// The numbers in ascending order.
pub open spec fn ascending(s: Seq<i64>) -> Seq<i64> {
    order::picked(s, order::ordered(s.len(), order::by_number(s, false)))
}

/// The value that `percent` of the numbers do not exceed: that at the position nearest to
/// `percent` of the way from the first of the ascending numbers to the last, the later one of two
/// that are equally near. Zero where there are no numbers.
pub open spec fn percentile(s: Seq<i64>, percent: int) -> i64 {
    if s.len() == 0 {
        0
    } else {
        ascending(s)[((s.len() - 1) * percent + 50) / 100]
    }
}

/// The statistics of one event.
pub open spec fn stats_of(event: Seq<char>, rows: Seq<HookRowV>) -> HookStatsV {
    HookStatsV {
        event,
        count: rows.len() as int,
        error_count: rows.filter(failed()).len() as int,
        duration_total: total(durations(rows)),
        duration_count: durations(rows).len() as int,
        p50_duration_ms: percentile(durations(rows), 50),
        p99_duration_ms: percentile(durations(rows), 99),
    }
}

/// The events of the rows.
pub open spec fn events(rows: Seq<HookRowV>) -> Seq<Seq<char>> {
    rows.map_values(|r: HookRowV| r.event)
}

/// The statistics of every event that ran since a time, in the order of the events' bytes.
pub open spec fn all_stats(rows: Seq<HookRowV>, since: Seq<char>) -> Seq<HookStatsV> {
    text::names(events(rows.filter(is_since(since)))).map_values(
        |e: Seq<char>| stats_of(e, rows.filter(counts_for(since, e))),
    )
}

/// The table of runs.
pub struct Hooks {
    rows: Vec<HookRow>,
}

impl Hooks {
    /// The rows of the table.
    pub closed spec fn rows(&self) -> Seq<HookRowV> {
        table::views(self.rows@)
    }

    /// What holds of the table at all times.
    pub open spec fn wf(&self) -> bool {
        is_table(self.rows())
    }

    /// An empty table.
    pub fn new() -> (r: Hooks)
        ensures
            r.wf(),
            r.rows() == Seq::<HookRowV>::empty(),
    {
        let r = Hooks { rows: Vec::new() };
        assert(r.rows() =~= Seq::<HookRowV>::empty());
        r
    }

    /// The table of the given rows, where their numbers ascend from one.
    pub fn from_rows(rows: Vec<HookRow>) -> (r: Option<Hooks>)
        ensures
            r is Some == is_table(table::views(rows@)),
            r matches Some(t) ==> t.rows() == table::views(rows@),
    {
        let ghost all = table::views(rows@);
        let mut j: usize = 0;
        while j < rows.len()
            invariant
                all == table::views(rows@),
                j <= rows@.len(),
                is_table(all.take(j as int)),
            decreases rows@.len() - j,
        {
            assert(all[j as int] == rows@[j as int]@);
            if rows[j].id <= 0 {
                assert(!is_table(all));
                return None;
            }
            if j > 0 {
                assert(all[j - 1] == rows@[j - 1]@);
                if rows[j - 1].id >= rows[j].id {
                    assert(!is_table(all));
                    return None;
                }
            }
            proof {
                let front = all.take(j as int);
                let next = all.take(j + 1);
                assert forall|a: int, b: int| 0 <= a < b < next.len() implies (#[trigger] next[a]).id
                    < (#[trigger] next[b]).id by {
                    if b < j {
                        assert(front[a].id < front[b].id);
                    } else if a < j - 1 {
                        assert(front[a].id < front[j - 1].id);
                    }
                }
                assert forall|a: int| 0 <= a < next.len() implies (#[trigger] next[a]).id > 0 by {
                    if a < j {
                        assert(front[a].id > 0);
                    }
                }
            }
            j += 1;
        }
        assert(all.take(all.len() as int) =~= all);
        Some(Hooks { rows })
    }

    /// The number of rows.
    pub fn count(&self) -> (r: usize)
        ensures
            r == self.rows().len(),
    {
        self.rows.len()
    }

    /// The row at a position.
    pub fn row(&self, i: usize) -> (r: &HookRow)
        requires
            i < self.rows().len(),
        ensures
            r@ == self.rows()[i as int],
    {
        &self.rows[i]
    }

    /// Appends a run, and returns the number of its row. It fails only where the numbers are used
    /// up.
    pub fn record(&mut self, ev: &HookEventInsert, now: Timestamp) -> (r: IcmResult<i64>)
        requires
            old(self).wf(),
        ensures
            final(self).wf(),
            if next_id(old(self).rows()) <= i64::MAX {
                &&& r matches Ok(id) && id == next_id(old(self).rows())
                &&& final(self).rows() == old(self).rows().push(
                    row_of_event(
                        next_id(old(self).rows()),
                        time::rfc3339_text(now@.0, now@.1),
                        *ev,
                    ),
                )
                &&& time::has_plain_year(now@.0, now@.1) ==> time::keeps_time(
                    final(self).rows().last().ts,
                )
            } else {
                &&& r matches Err(e) && e@ == ErrorV::Database("database or disk is full"@)
                &&& final(self).rows() == old(self).rows()
            },
    {
        let ghost rows = self.rows();
        let n: usize = self.rows.len();
        let id: i64 = if n == 0 {
            1
        } else {
            assert(rows.last() == self.rows@[n - 1]@);
            let last: i64 = self.rows[n - 1].id;
            if last == i64::MAX {
                return Err(IcmError::Database("database or disk is full".to_owned()));
            }
            last + 1
        };
        let row = HookRow {
            id,
            ts: now.to_rfc3339(),
            event: ev.event.clone(),
            project: text::copy_opt(&ev.project),
            session_id: text::copy_opt(&ev.session_id),
            tool_name: text::copy_opt(&ev.tool_name),
            duration_ms: ev.duration_ms,
            exit_code: ev.exit_code,
            payload_size: ev.payload_size,
            note: text::copy_opt(&ev.note),
        };
        let ghost new = row@;
        self.rows.push(row);
        assert(self.rows() =~= rows.push(new));
        Ok(id)
    }

    /// Removes the runs before a time, and returns how many there were. The time is an RFC 3339
    /// text; where it, or the time of a row, cannot be read, the order of their bytes decides.
    pub fn prune(&mut self, cutoff: &str) -> (r: usize)
        requires
            old(self).wf(),
        ensures
            final(self).wf(),
            final(self).rows() == old(self).rows().filter(is_since(cutoff@)),
            r + final(self).rows().len() == old(self).rows().len(),
    {
        let ghost rows = self.rows();
        let ghost keep = is_since(cutoff@);
        let mut goes: Vec<bool> = Vec::new();
        while goes.len() < self.rows.len()
            invariant
                rows == self.rows(),
                rows.len() == self.rows@.len(),
                keep == is_since(cutoff@),
                goes@.len() <= rows.len(),
                forall|i: int| 0 <= i < goes@.len() ==> #[trigger] goes@[i] == !keep(rows[i]),
            decreases rows.len() - goes@.len(),
        {
            assert(rows[goes@.len() as int] == self.rows@[goes@.len() as int]@);
            goes.push(time::before_time(self.rows[goes.len()].ts.as_str(), cutoff));
        }
        let ghost f = |r: HookRow| r@;
        assert(self.rows@.map_values(f) =~= rows);
        let gone = table::take_out::<HookRow, HookRowV>(&mut self.rows, &goes, Ghost(f), Ghost(keep));
        proof {
            assert(self.rows() =~= self.rows@.map_values(f));
            lemma_filter_is_table(rows, keep);
        }
        gone.len()
    }

    /// The latest runs, of one event where one is given: at most `limit`, the latest first.
    pub fn recent(&self, limit: usize, event_filter: Option<&str>, now: Timestamp) -> (r: Vec<
        HookEvent,
    >)
        ensures
            ({
                let e = text::opt_slice(event_filter);
                table::views(r@) == events_of(
                    table::at_most(self.rows().filter(is_event(e)).reverse(), limit as nat),
                    now@,
                )
            }),
    {
        let ghost e = text::opt_slice(event_filter);
        let ghost rows = self.rows();
        let ghost p = is_event(e);
        let ghost all = rows.filter(p).reverse();
        let mut r: Vec<HookEvent> = Vec::new();
        let mut i: usize = self.rows.len();
        proof {
            reveal(Seq::filter);
            assert(rows.skip(i as int).filter(p).reverse() =~= seq![]);
            assert(table::views(r@) =~= events_of(seq![], now@));
        }
        while i > 0 && r.len() < limit
            invariant
                rows == self.rows(),
                rows.len() == self.rows@.len(),
                i <= rows.len(),
                r@.len() <= limit,
                e == text::opt_slice(event_filter),
                p == is_event(e),
                table::views(r@) == events_of(rows.skip(i as int).filter(p).reverse(), now@),
            decreases i,
        {
            i -= 1;
            let row = &self.rows[i];
            let wanted = match event_filter {
                Some(e) => bytes::same_text(row.event.as_str(), e),
                None => true,
            };
            proof {
                assert(rows[i as int] == self.rows@[i as int]@);
                assert(wanted == p(rows[i as int]));
                table::lemma_filter_first(rows.skip(i as int), p);
                assert(rows.skip(i as int).drop_first() =~= rows.skip(i + 1));
                assert(rows.skip(i as int)[0] == rows[i as int]);
            }
            let ghost rest = rows.skip(i + 1).filter(p);
            if wanted {
                let event = row_to_event(row, now);
                let ghost before = table::views(r@);
                let ghost reading = event@;
                r.push(event);
                assert(table::views(r@) =~= before.push(reading));
                assert((seq![rows[i as int]] + rest).reverse() =~= rest.reverse().push(
                    rows[i as int],
                ));
                assert(events_of(rest.reverse().push(rows[i as int]), now@) =~= before.push(
                    reading,
                ));
            }
        }
        proof {
            table::lemma_filter_suffix(rows, p, i as int);
            let tail = rows.skip(i as int).filter(p);
            let head = rows.take(i as int).filter(p);
            assert(rows.filter(p) == head + tail);
            assert((head + tail).reverse() =~= tail.reverse() + head.reverse());
            assert(table::views(r@).len() == r@.len());
            if i == 0 {
                assert(head.len() == 0) by {
                    reveal(Seq::filter);
                }
            }
            assert(table::at_most(all, limit as nat) =~= tail.reverse());
        }
        r
    }
}

proof fn lemma_filter_is_table(rows: Seq<HookRowV>, p: spec_fn(HookRowV) -> bool)
    requires
        is_table(rows),
    ensures
        is_table(rows.filter(p)),
{
    let at = table::filter_positions(rows, p);
    let out = rows.filter(p);
    assert forall|i: int, j: int| 0 <= i < j < out.len() implies (#[trigger] out[i]).id < (
    #[trigger] out[j]).id by {
        assert(at[i] < at[j]);
        assert(out[i] == rows[at[i]] && out[j] == rows[at[j]]);
    }
    assert forall|i: int| 0 <= i < out.len() implies (#[trigger] out[i]).id > 0 by {
        assert(out[i] == rows[at[i]]);
    }
}

/// What is pruned is what the statistics since the same time leave out: they stay as they were.
pub proof fn lemma_pruning_keeps_the_window(rows: Seq<HookRowV>, cutoff: Seq<char>)
    ensures
        all_stats(rows.filter(is_since(cutoff)), cutoff) == all_stats(rows, cutoff),
{
    let p = is_since(cutoff);
    let kept = rows.filter(p);
    let at = table::filter_positions(rows, p);
    assert forall|i: int| 0 <= i < kept.len() implies p(#[trigger] kept[i]) by {
        assert(kept[i] == rows[at[i]]);
    }
    table::lemma_filter_all_pass(kept, p);
    assert forall|e: Seq<char>| #[trigger]
        kept.filter(counts_for(cutoff, e)) == rows.filter(counts_for(cutoff, e)) by {
        lemma_narrower_filter(rows, counts_for(cutoff, e), p);
    }
    assert(all_stats(kept, cutoff) =~= all_stats(rows, cutoff));
}

proof fn lemma_narrower_filter(
    rows: Seq<HookRowV>,
    narrow: spec_fn(HookRowV) -> bool,
    wide: spec_fn(HookRowV) -> bool,
)
    requires
        forall|r: HookRowV| #[trigger] narrow(r) ==> wide(r),
    ensures
        rows.filter(wide).filter(narrow) == rows.filter(narrow),
    decreases rows.len(),
{
    reveal(Seq::filter);
    if rows.len() > 0 {
        lemma_narrower_filter(rows.drop_last(), narrow, wide);
        let kept = rows.drop_last().filter(wide);
        if wide(rows.last()) {
            assert(rows.filter(wide) == kept.push(rows.last()));
            assert(kept.push(rows.last()).drop_last() =~= kept);
        } else {
            assert(!narrow(rows.last()));
        }
    } else {
        assert(rows.filter(wide) =~= rows);
    }
}

/// The list of recent runs descends: no run stands behind an older one.
pub proof fn lemma_recent_is_newest_first(rows: Seq<HookRowV>, event: Option<Seq<char>>)
    requires
        is_table(rows),
    ensures
        forall|i: int, j: int|
            0 <= i < j < rows.filter(is_event(event)).len() ==> (#[trigger] rows.filter(
                is_event(event),
            ).reverse()[i]).id > (#[trigger] rows.filter(is_event(event)).reverse()[j]).id,
{
    let at = table::filter_positions(rows, is_event(event));
    let s = rows.filter(is_event(event));
    assert forall|i: int, j: int| 0 <= i < j < s.len() implies (#[trigger] s.reverse()[i]).id > (
    #[trigger] s.reverse()[j]).id by {
        let a = s.len() - 1 - i;
        let b = s.len() - 1 - j;
        assert(s.reverse()[i] == s[a] && s.reverse()[j] == s[b]);
        assert(at[b] < at[a]);
        assert(s[a] == rows[at[a]] && s[b] == rows[at[b]]);
    }
}

/// There are no more rows than numbers for them.
proof fn lemma_row_count(rows: Seq<HookRowV>, i: int)
    requires
        is_table(rows),
        0 <= i < rows.len(),
    ensures
        rows[i].id >= i + 1,
    decreases i,
{
    if i > 0 {
        lemma_row_count(rows, i - 1);
        assert(rows[i - 1].id < rows[i].id);
    }
}

proof fn lemma_total_bound(s: Seq<i64>)
    ensures
        -0x8000_0000_0000_0000 * s.len() <= total(s) <= 0x8000_0000_0000_0000 * s.len(),
    decreases s.len(),
{
    if s.len() > 0 {
        lemma_total_bound(s.drop_last());
    }
}

fn in_ascending_order(v: &Vec<i64>) -> (r: Vec<i64>)
    ensures
        r@ == ascending(v@),
        r@.len() == v@.len(),
{
    let o = order::order_numbers(v, false);
    let mut r: Vec<i64> = Vec::new();
    let mut i: usize = 0;
    while i < o.len()
        invariant
            i <= o@.len(),
            o@.len() == v@.len(),
            forall|k: int| 0 <= k < o@.len() ==> #[trigger] o@[k] < v@.len(),
            r@ == order::picked(v@, order::positions(o@)).take(i as int),
        decreases o@.len() - i,
    {
        r.push(v[o[i]]);
        assert(r@ =~= order::picked(v@, order::positions(o@)).take(i + 1));
        i += 1;
    }
    assert(r@ =~= ascending(v@));
    r
}

/// The value at a percentage of the way through ascending numbers.
fn value_at(sorted: &Vec<i64>, percent: u128, Ghost(s): Ghost<Seq<i64>>) -> (r: i64)
    requires
        sorted@ == ascending(s),
        sorted@.len() == s.len(),
        percent <= 100,
    ensures
        r == percentile(s, percent as int),
{
    let n: usize = sorted.len();
    if n == 0 {
        return 0;
    }
    let way: u128 = (n - 1) as u128;
    assert(way * percent <= way * 100 && 0 <= way * percent) by (nonlinear_arith)
        requires
            percent <= 100,
            way >= 0,
            percent >= 0,
    ;
    let at: u128 = (way * percent + 50) / 100;
    assert(at <= way);
    sorted[at as usize]
}

impl Hooks {
    /// The statistics of one event.
    fn stats_for(&self, since: &str, event: &str) -> (r: HookStatsRow)
        requires
            self.wf(),
        ensures
            r@ == stats_of(event@, self.rows().filter(counts_for(since@, event@))),
    {
        let ghost rows = self.rows();
        let ghost p = counts_for(since@, event@);
        let mut count: i64 = 0;
        let mut error_count: i64 = 0;
        let mut sum: i128 = 0;
        let mut held: Vec<i64> = Vec::new();
        let mut i: usize = 0;
        proof {
            reveal(Seq::filter);
            if rows.len() > 0 {
                lemma_row_count(rows, rows.len() - 1);
            }
            assert(rows.take(0).filter(p) =~= seq![]);
            assert(rows.take(0).filter(p).filter(failed()) =~= seq![]);
            assert(durations(rows.take(0).filter(p)) =~= seq![]);
        }
        while i < self.rows.len()
            invariant
                rows == self.rows(),
                rows.len() == self.rows@.len(),
                rows.len() <= i64::MAX,
                i <= rows.len(),
                p == counts_for(since@, event@),
                count == rows.take(i as int).filter(p).len(),
                count <= i,
                error_count == rows.take(i as int).filter(p).filter(failed()).len(),
                error_count <= count,
                held@ == durations(rows.take(i as int).filter(p)),
                held@.len() <= i,
                sum == total(held@),
            decreases rows.len() - i,
        {
            let row = &self.rows[i];
            let ghost group = rows.take(i as int).filter(p);
            proof {
                reveal(Seq::filter);
                assert(rows[i as int] == self.rows@[i as int]@);
                assert(rows.take(i + 1).drop_last() =~= rows.take(i as int));
                assert(rows.take(i + 1).last() == rows[i as int]);
            }
            if bytes::same_text(row.event.as_str(), event) && !time::before_time(
                row.ts.as_str(),
                since,
            ) {
                proof {
                    reveal(Seq::filter);
                    assert(rows.take(i + 1).filter(p) == group.push(rows[i as int]));
                    assert(group.push(rows[i as int]).drop_last() =~= group);
                }
                count += 1;
                if row.exit_code != 0 {
                    error_count += 1;
                }
                match row.duration_ms {
                    Some(d) => {
                        let ghost before = held@;
                        proof {
                            lemma_total_bound(before);
                        }
                        held.push(d);
                        sum += d as i128;
                        assert(held@.drop_last() =~= before);
                    },
                    None => {},
                }
            }
            i += 1;
        }
        assert(rows.take(i as int) =~= rows);
        let sorted = in_ascending_order(&held);
        HookStatsRow {
            event: event.to_owned(),
            count,
            error_count,
            duration_total: sum,
            duration_count: held.len() as i64,
            p50_duration_ms: value_at(&sorted, 50, Ghost(held@)),
            p99_duration_ms: value_at(&sorted, 99, Ghost(held@)),
        }
    }

    /// The statistics of every event that ran since a time, in the order of the events' bytes.
    /// The time is an RFC 3339 text with any offset; where it, or the time of a row, cannot be
    /// read, the order of their bytes decides.
    pub fn stats(&self, since: &str) -> (r: Vec<HookStatsRow>)
        requires
            self.wf(),
        ensures
            table::views(r@) == all_stats(self.rows(), since@),
    {
        let ghost rows = self.rows();
        let ghost p = is_since(since@);
        let ghost mut recent: Seq<HookRowV> = seq![];
        let mut all: Vec<&str> = Vec::new();
        let mut i: usize = 0;
        proof {
            reveal(Seq::filter);
            assert(rows.take(0).filter(p) =~= recent);
            assert(text::slices(all@) =~= events(recent));
        }
        while i < self.rows.len()
            invariant
                rows == self.rows(),
                rows.len() == self.rows@.len(),
                i <= rows.len(),
                p == is_since(since@),
                recent == rows.take(i as int).filter(p),
                text::slices(all@) == events(recent),
            decreases rows.len() - i,
        {
            let row = &self.rows[i];
            proof {
                reveal(Seq::filter);
                assert(rows[i as int] == self.rows@[i as int]@);
                assert(rows.take(i + 1).drop_last() =~= rows.take(i as int));
                assert(rows.take(i + 1).last() == rows[i as int]);
            }
            if !time::before_time(row.ts.as_str(), since) {
                let name = row.event.as_str();
                let ghost before = text::slices(all@);
                all.push(name);
                proof {
                    assert(text::slices(all@) =~= before.push(name@));
                    recent = recent.push(rows[i as int]);
                    assert(events(recent) =~= before.push(name@));
                }
            }
            i += 1;
        }
        assert(rows.take(i as int) =~= rows);
        let names = text::sorted_names(&all);
        let ghost goal = all_stats(rows, since@);
        let mut r: Vec<HookStatsRow> = Vec::new();
        let mut k: usize = 0;
        assert(table::views(r@) =~= goal.take(0));
        assert(text::texts(names@).len() == names@.len());
        while k < names.len()
            invariant
                self.wf(),
                rows == self.rows(),
                k <= names@.len(),
                text::texts(names@) == text::names(events(rows.filter(is_since(since@)))),
                goal == all_stats(rows, since@),
                goal.len() == names@.len(),
                table::views(r@) == goal.take(k as int),
            decreases names@.len() - k,
        {
            let row = self.stats_for(since, names[k].as_str());
            let ghost before = table::views(r@);
            let ghost reading = row@;
            assert(text::texts(names@)[k as int] == names@[k as int]@);
            assert(reading == goal[k as int]);
            r.push(row);
            assert(table::views(r@) =~= before.push(reading));
            assert(goal.take(k + 1) =~= goal.take(k as int).push(goal[k as int]));
            k += 1;
        }
        assert(goal.take(k as int) =~= goal);
        r
    }
}

/// A run counts since a time exactly if it was no earlier than that time, however the time is
/// written.
pub proof fn lemma_since_is_by_time(r: HookRowV, since: Seq<char>)
    requires
        time::rfc3339_parsed(r.ts) is Some,
        time::rfc3339_parsed(since) is Some,
    ensures
        is_since(since)(r) == !time::is_earlier(time::time_of(r.ts), time::time_of(since)),
{
}

proof fn lemma_same_filter(
    rows: Seq<HookRowV>,
    p: spec_fn(HookRowV) -> bool,
    q: spec_fn(HookRowV) -> bool,
)
    requires
        forall|i: int| 0 <= i < rows.len() ==> p(#[trigger] rows[i]) == q(rows[i]),
    ensures
        rows.filter(p) == rows.filter(q),
    decreases rows.len(),
{
    reveal(Seq::filter);
    if rows.len() > 0 {
        let front = rows.drop_last();
        assert forall|i: int| 0 <= i < front.len() implies p(#[trigger] front[i]) == q(front[i]) by {
            assert(front[i] == rows[i]);
        }
        lemma_same_filter(front, p, q);
        assert(p(rows[rows.len() - 1]) == q(rows[rows.len() - 1]));
    }
}

/// Two ways to write one instant give the same statistics.
pub proof fn lemma_stats_see_the_instant(rows: Seq<HookRowV>, a: Seq<char>, b: Seq<char>)
    requires
        forall|i: int| 0 <= i < rows.len() ==> time::rfc3339_parsed((#[trigger] rows[i]).ts) is Some,
        time::rfc3339_parsed(a) is Some,
        time::rfc3339_parsed(a) == time::rfc3339_parsed(b),
    ensures
        all_stats(rows, a) == all_stats(rows, b),
{
    lemma_same_filter(rows, is_since(a), is_since(b));
    assert forall|e: Seq<char>| #[trigger]
        rows.filter(counts_for(a, e)) == rows.filter(counts_for(b, e)) by {
        lemma_same_filter(rows, counts_for(a, e), counts_for(b, e));
    }
    assert(all_stats(rows, a) =~= all_stats(rows, b));
}

/// The numbers in ascending order ascend, and none is lost.
pub proof fn lemma_ascending(s: Seq<i64>)
    ensures
        ascending(s).len() == s.len(),
        forall|i: int, j: int|
            0 <= i < j < s.len() ==> #[trigger] ascending(s)[i] <= #[trigger] ascending(s)[j],
        ascending(s).to_multiset() == s.to_multiset(),
{
    let before = order::by_number(s, false);
    order::lemma_by_number_ranks(s, false);
    order::lemma_ordered(s.len(), before);
    let o = order::ordered(s.len(), before);
    assert forall|i: int, j: int| 0 <= i < j < s.len() implies #[trigger] ascending(s)[i]
        <= #[trigger] ascending(s)[j] by {
        assert(!before(o[j], o[i]));
    }
    order::lemma_picked_is_permutation(s, o);
}

/// A percentile of some numbers is one of them, and a higher percentage gives no smaller value.
pub proof fn lemma_percentile(s: Seq<i64>, low: int, high: int)
    requires
        s.len() > 0,
        0 <= low <= high <= 100,
    ensures
        s.contains(percentile(s, low)),
        percentile(s, low) <= percentile(s, high),
{
    broadcast use vstd::seq_lib::group_to_multiset_ensures;

    lemma_ascending(s);
    let n = s.len() - 1;
    assert(0 <= n * low <= n * high <= n * 100) by (nonlinear_arith)
        requires
            n >= 0,
            0 <= low <= high <= 100,
    ;
    let a = (n * low + 50) / 100;
    let b = (n * high + 50) / 100;
    assert(0 <= a <= b <= n);
    assert(ascending(s).contains(ascending(s)[a]));
    assert(ascending(s).to_multiset().count(ascending(s)[a]) > 0);
    assert(s.contains(ascending(s)[a]));
}

/// Each event that ran since the time has one row of statistics, no other event has one, and the
/// rows are in the order of the events' bytes.
pub proof fn lemma_stats_cover_events(rows: Seq<HookRowV>, since: Seq<char>)
    ensures
        forall|i: int|
            0 <= i < rows.len() && is_since(since)(#[trigger] rows[i]) ==> exists|k: int|
                0 <= k < all_stats(rows, since).len() && (#[trigger] all_stats(rows, since)[k]).event
                    == rows[i].event,
        forall|k: int|
            0 <= k < all_stats(rows, since).len() ==> (#[trigger] all_stats(rows, since)[k]).count > 0,
        forall|k: int, j: int|
            0 <= k < j < all_stats(rows, since).len() ==> bytes::text_before(
                (#[trigger] all_stats(rows, since)[k]).event,
                (#[trigger] all_stats(rows, since)[j]).event,
            ),
{
    let recent = rows.filter(is_since(since));
    let found = text::names(events(recent));
    let out = all_stats(rows, since);
    text::lemma_names(events(recent));
    assert forall|i: int| 0 <= i < rows.len() && is_since(since)(#[trigger] rows[i]) implies exists|
        k: int,
    |
        0 <= k < out.len() && (#[trigger] out[k]).event == rows[i].event by {
        table::lemma_filter_members(rows, is_since(since), rows[i]);
        let j = choose|j: int| 0 <= j < recent.len() && recent[j] == rows[i];
        assert(events(recent)[j] == rows[i].event);
        assert(found.contains(events(recent)[j]));
        let k = choose|k: int| 0 <= k < found.len() && found[k] == rows[i].event;
        assert(out[k].event == rows[i].event);
    }
    assert forall|k: int| 0 <= k < out.len() implies (#[trigger] out[k]).count > 0 by {
        let e = found[k];
        assert(events(recent).contains(found[k]));
        let j = choose|j: int| 0 <= j < events(recent).len() && events(recent)[j] == e;
        let at = table::filter_positions(rows, is_since(since));
        assert(recent[j] == rows[at[j]]);
        table::lemma_filter_members(rows, counts_for(since, e), rows[at[j]]);
        assert(rows.filter(counts_for(since, e)).contains(rows[at[j]]));
        assert(out[k] == stats_of(e, rows.filter(counts_for(since, e))));
    }
    assert forall|k: int, j: int| 0 <= k < j < out.len() implies bytes::text_before(
        (#[trigger] out[k]).event,
        (#[trigger] out[j]).event,
    ) by {
        assert(bytes::text_before(found[k], found[j]));
    }
}

// ---------------------------------------------------------------------------
// What is recorded, and what is made of it
// ---------------------------------------------------------------------------

/// A recorded run is read back as it was reported, field by field.
pub proof fn lemma_run_is_read_back(id: i64, ts: Seq<char>, ev: HookEventInsert, now: (i64, u32))
    ensures
        ({
            let e = event_of_row(row_of_event(id as int, ts, ev), now);
            &&& e.id == id
            &&& time::rfc3339_parsed(ts) matches Some(t) ==> e.ts == t
            &&& e.event == ev.event@
            &&& e.project is Some == ev.project is Some
            &&& ev.project matches Some(s) ==> e.project == Some(s@)
            &&& e.session_id is Some == ev.session_id is Some
            &&& ev.session_id matches Some(s) ==> e.session_id == Some(s@)
            &&& e.tool_name is Some == ev.tool_name is Some
            &&& ev.tool_name matches Some(s) ==> e.tool_name == Some(s@)
            &&& e.duration_ms == ev.duration_ms
            &&& e.exit_code == ev.exit_code
            &&& e.payload_size == ev.payload_size
            &&& e.note is Some == ev.note is Some
            &&& ev.note matches Some(s) ==> e.note == Some(s@)
        }),
        row_of_event(id as int, ts, ev).ts == ts,
{
}

/// Each column of a row gives the field of the same name.
pub proof fn lemma_each_column_gives_its_field(r: HookRowV, now: (i64, u32))
    ensures
        ({
            let e = event_of_row(r, now);
            &&& e.id == r.id && e.ts == time::dt_of(r.ts, now) && e.event == r.event
            &&& e.project == r.project && e.session_id == r.session_id
            &&& e.tool_name == r.tool_name && e.duration_ms == r.duration_ms
            &&& e.exit_code == r.exit_code && e.payload_size == r.payload_size && e.note == r.note
        }),
{
}

/// Rows and runs are read field by field.
pub proof fn lemma_runs_are_read_field_by_field(r: HookRow, e: HookEvent)
    ensures
        r@.id == r.id,
        r@.ts == r.ts@,
        r@.event == r.event@,
        r.project matches Some(s) ==> r@.project == Some(s@),
        r@.project is Some == r.project is Some,
        r.session_id matches Some(s) ==> r@.session_id == Some(s@),
        r@.session_id is Some == r.session_id is Some,
        r.tool_name matches Some(s) ==> r@.tool_name == Some(s@),
        r@.tool_name is Some == r.tool_name is Some,
        r.note matches Some(s) ==> r@.note == Some(s@),
        r@.note is Some == r.note is Some,
        r@.duration_ms == r.duration_ms,
        r@.exit_code == r.exit_code,
        r@.payload_size == r.payload_size,
        e@.id == e.id,
        e@.ts == e.ts@,
        e@.event == e.event@,
        e.project matches Some(s) ==> e@.project == Some(s@),
        e@.project is Some == e.project is Some,
        e.session_id matches Some(s) ==> e@.session_id == Some(s@),
        e@.session_id is Some == e.session_id is Some,
        e.tool_name matches Some(s) ==> e@.tool_name == Some(s@),
        e@.tool_name is Some == e.tool_name is Some,
        e.note matches Some(s) ==> e@.note == Some(s@),
        e@.note is Some == e.note is Some,
        e@.duration_ms == e.duration_ms,
        e@.exit_code == e.exit_code,
        e@.payload_size == e.payload_size,
{
}

/// A new row gets a number that no row has: one, or one more than that of the last.
pub proof fn lemma_numbers_ascend(rows: Seq<HookRowV>, i: int)
    requires
        is_table(rows),
    ensures
        rows.len() == 0 ==> next_id(rows) == 1,
        rows.len() > 0 ==> next_id(rows) == rows[rows.len() - 1].id + 1,
        0 <= i < rows.len() ==> 0 < rows[i].id < next_id(rows),
{
    if 0 <= i < rows.len() - 1 {
        assert(rows[i].id < rows[rows.len() - 1].id);
    }
}

/// A filter on the event lets through the runs of this event, letter for letter; no filter lets
/// all through.
pub proof fn lemma_event_filter_is_exact(rows: Seq<HookRowV>, event: Seq<char>, r: HookRowV)
    ensures
        rows.filter(is_event(None)) == rows,
        rows.filter(is_event(Some(event))).contains(r) == (rows.contains(r) && r.event == event),
{
    table::lemma_filter_all_pass(rows, is_event(None));
    table::lemma_filter_members(rows, is_event(Some(event)), r);
}

/// The latest run stands first in the list of recent runs.
pub proof fn lemma_latest_run_comes_first(rows: Seq<HookRowV>, r: HookRowV, limit: nat)
    requires
        limit > 0,
    ensures
        table::at_most(rows.push(r).filter(is_event(None)).reverse(), limit).len() > 0,
        table::at_most(rows.push(r).filter(is_event(None)).reverse(), limit)[0] == r,
        table::at_most(rows.push(r).filter(is_event(Some(r.event))).reverse(), limit).len() > 0,
        table::at_most(rows.push(r).filter(is_event(Some(r.event))).reverse(), limit)[0] == r,
{
    reveal(Seq::filter);
    assert(rows.push(r).drop_last() =~= rows);
}

/// The runs since a time are those whose time is not before it, and pruning leaves these.
pub proof fn lemma_window_is_exact(
    rows: Seq<HookRowV>,
    since: Seq<char>,
    event: Seq<char>,
    r: HookRowV,
)
    ensures
        rows.filter(is_since(since)).contains(r) == (rows.contains(r) && !time::is_before_time(
            r.ts,
            since,
        )),
        rows.filter(counts_for(since, event)).contains(r) == (rows.contains(r) && r.event == event
            && !time::is_before_time(r.ts, since)),
        rows.push(r).filter(counts_for(since, event)).len() == rows.filter(
            counts_for(since, event),
        ).len() + (if r.event == event && !time::is_before_time(r.ts, since) {
            1int
        } else {
            0
        }),
{
    reveal(Seq::filter);
    table::lemma_filter_members(rows, is_since(since), r);
    table::lemma_filter_members(rows, counts_for(since, event), r);
    assert(rows.push(r).drop_last() =~= rows);
}

/// Of an event's runs all are counted, those that ended with another code than zero as errors, and
/// the durations that are there are collected and summed.
pub proof fn lemma_statistics_are_exact(event: Seq<char>, rows: Seq<HookRowV>, r: HookRowV)
    ensures
        ({
            let none = stats_of(event, Seq::empty());
            let before = stats_of(event, rows);
            let after = stats_of(event, rows.push(r));
            &&& none.count == 0 && none.error_count == 0
            &&& none.duration_total == 0 && none.duration_count == 0
            &&& none.p50_duration_ms == 0 && none.p99_duration_ms == 0
            &&& after.event == event
            &&& after.count == before.count + 1
            &&& r.exit_code != 0 ==> after.error_count == before.error_count + 1
            &&& r.exit_code == 0 ==> after.error_count == before.error_count
            &&& r.duration_ms is None ==> {
                &&& after.duration_total == before.duration_total
                &&& after.duration_count == before.duration_count
                &&& durations(rows.push(r)) == durations(rows)
            }
            &&& r.duration_ms matches Some(d) ==> {
                &&& after.duration_total == before.duration_total + d
                &&& after.duration_count == before.duration_count + 1
                &&& durations(rows.push(r)) == durations(rows).push(d)
            }
            &&& before.p50_duration_ms == percentile(durations(rows), 50)
            &&& before.p99_duration_ms == percentile(durations(rows), 99)
        }),
        durations(Seq::empty()) == Seq::<i64>::empty(),
{
    reveal(Seq::filter);
    assert(rows.push(r).drop_last() =~= rows);
    assert(durations(Seq::empty()) =~= Seq::<i64>::empty());
    if let Some(d) = r.duration_ms {
        assert(durations(rows).push(d).drop_last() =~= durations(rows));
    }
}

/// A percentile of `n` numbers is the one at the position nearest to that percentage of the way
/// from the first to the last in ascending order; halfway between two it is the later one.
pub proof fn lemma_percentile_is_at_nearest_position(s: Seq<i64>, percent: int, k: int)
    requires
        s.len() > 0,
        0 <= percent <= 100,
        100 * k - 50 <= (s.len() - 1) * percent < 100 * k + 50,
    ensures
        0 <= k < s.len(),
        percentile(s, percent) == ascending(s)[k],
{
    let way = (s.len() - 1) * percent;
    assert(0 <= way <= (s.len() - 1) * 100) by (nonlinear_arith)
        requires
            s.len() > 0,
            0 <= percent <= 100,
            way == (s.len() - 1) * percent,
    ;
    assert((way + 50) / 100 == k);
}

/// Each row of the statistics is that of its event's runs since the time.
pub proof fn lemma_statistics_of_each_event(rows: Seq<HookRowV>, since: Seq<char>, k: int)
    requires
        0 <= k < all_stats(rows, since).len(),
    ensures
        ({
            let s = all_stats(rows, since)[k];
            s == stats_of(s.event, rows.filter(counts_for(since, s.event)))
        }),
{
}

/// Runs are read row by row, and a row of the statistics field by field.
pub proof fn lemma_runs_are_read_row_by_row(
    rows: Seq<HookRowV>,
    now: (i64, u32),
    i: int,
    s: HookStatsRow,
)
    requires
        0 <= i < rows.len(),
    ensures
        events_of(rows, now).len() == rows.len(),
        events_of(rows, now)[i] == event_of_row(rows[i], now),
        events(rows).len() == rows.len(),
        events(rows)[i] == rows[i].event,
        s@.event == s.event@,
        s@.count == s.count,
        s@.error_count == s.error_count,
        s@.duration_total == s.duration_total,
        s@.duration_count == s.duration_count,
        s@.p50_duration_ms == s.p50_duration_ms,
        s@.p99_duration_ms == s.p99_duration_ms,
{
}

} // verus!
