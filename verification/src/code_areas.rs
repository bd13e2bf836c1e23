//! The files that were edited, with how often and when.
use vstd::prelude::*;
use vstd::string::*;
use crate::bytes;
use crate::error::{ErrorV, IcmError, IcmResult};
use crate::order;
use crate::table;
use crate::text;
use crate::time;
use crate::time::Timestamp;

verus! {

/// One row of the table: a file of a project. The times are RFC 3339 texts.
#[derive(Debug, PartialEq, Eq)]
pub struct CodeAreaRow {
    pub id: i64,
    pub project: String,
    pub file_path: String,
    pub description: Option<String>,
    pub session_id: Option<String>,
    pub tool_name: Option<String>,
    pub touch_count: i64,
    pub first_touched_at: String,
    pub last_touched_at: String,
}

/// The mathematical reading of a row.
#[verifier::ext_equal]
pub struct CodeAreaRowV {
    pub id: i64,
    pub project: Seq<char>,
    pub file_path: Seq<char>,
    pub description: Option<Seq<char>>,
    pub session_id: Option<Seq<char>>,
    pub tool_name: Option<Seq<char>>,
    pub touch_count: i64,
    pub first_touched_at: Seq<char>,
    pub last_touched_at: Seq<char>,
}

impl View for CodeAreaRow {
    type V = CodeAreaRowV;

    open spec fn view(&self) -> CodeAreaRowV {
        CodeAreaRowV {
            id: self.id,
            project: self.project@,
            file_path: self.file_path@,
            description: text::opt_text(self.description),
            session_id: text::opt_text(self.session_id),
            tool_name: text::opt_text(self.tool_name),
            touch_count: self.touch_count,
            first_touched_at: self.first_touched_at@,
            last_touched_at: self.last_touched_at@,
        }
    }
}

/// A file of a project, with how often and when it was edited.
#[derive(Debug)]
pub struct CodeArea {
    pub id: i64,
    pub project: String,
    pub file_path: String,
    pub description: Option<String>,
    pub session_id: Option<String>,
    pub tool_name: Option<String>,
    pub touch_count: i64,
    pub first_touched_at: Timestamp,
    pub last_touched_at: Timestamp,
}

/// The mathematical reading of an edited file.
#[verifier::ext_equal]
pub struct CodeAreaV {
    pub id: i64,
    pub project: Seq<char>,
    pub file_path: Seq<char>,
    pub description: Option<Seq<char>>,
    pub session_id: Option<Seq<char>>,
    pub tool_name: Option<Seq<char>>,
    pub touch_count: i64,
    pub first_touched_at: (i64, u32),
    pub last_touched_at: (i64, u32),
}

impl View for CodeArea {
    type V = CodeAreaV;

    open spec fn view(&self) -> CodeAreaV {
        CodeAreaV {
            id: self.id,
            project: self.project@,
            file_path: self.file_path@,
            description: text::opt_text(self.description),
            session_id: text::opt_text(self.session_id),
            tool_name: text::opt_text(self.tool_name),
            touch_count: self.touch_count,
            first_touched_at: self.first_touched_at@,
            last_touched_at: self.last_touched_at@,
        }
    }
}

/// The edited file that a row stands for. A time that cannot be read counts as `now`.
pub open spec fn area_of_row(r: CodeAreaRowV, now: (i64, u32)) -> CodeAreaV {
    CodeAreaV {
        id: r.id,
        project: r.project,
        file_path: r.file_path,
        description: r.description,
        session_id: r.session_id,
        tool_name: r.tool_name,
        touch_count: r.touch_count,
        first_touched_at: time::dt_of(r.first_touched_at, now),
        last_touched_at: time::dt_of(r.last_touched_at, now),
    }
}

/// The edited file that a row stands for.
pub fn row_to_area(row: &CodeAreaRow, now: Timestamp) -> (r: CodeArea)
    ensures
        r@ == area_of_row(row@, now@),
{
    CodeArea {
        id: row.id,
        project: row.project.clone(),
        file_path: row.file_path.clone(),
        description: text::copy_opt(&row.description),
        session_id: text::copy_opt(&row.session_id),
        tool_name: text::copy_opt(&row.tool_name),
        touch_count: row.touch_count,
        first_touched_at: time::parse_dt(row.first_touched_at.as_str(), now),
        last_touched_at: time::parse_dt(row.last_touched_at.as_str(), now),
    }
}

/// The table of edited files.
pub struct CodeAreas {
    rows: Vec<CodeAreaRow>,
}

/// What holds of the table at all times: the numbers of the rows ascend from one, and no file of
/// a project has two rows.
pub open spec fn is_table(rows: Seq<CodeAreaRowV>) -> bool {
    &&& forall|i: int, j: int|
        0 <= i < j < rows.len() ==> (#[trigger] rows[i]).id < (#[trigger] rows[j]).id
    &&& forall|i: int| 0 <= i < rows.len() ==> (#[trigger] rows[i]).id > 0
    &&& forall|i: int, j: int|
        0 <= i < j < rows.len() ==> !(#[trigger] rows[i].project == #[trigger] rows[j].project
            && rows[i].file_path == rows[j].file_path)
}

/// The row is that of this file.
pub open spec fn is_file(project: Seq<char>, file_path: Seq<char>) -> spec_fn(CodeAreaRowV) -> bool {
    |r: CodeAreaRowV| r.project == project && r.file_path == file_path
}

/// The new value where there is one, the old one otherwise.
pub open spec fn newest(new: Option<Seq<char>>, old_value: Option<Seq<char>>) -> Option<Seq<char>> {
    match new {
        Some(s) => Some(s),
        None => old_value,
    }
}

/// What is known of one edit.
#[verifier::ext_equal]
pub struct TouchV {
    pub project: Seq<char>,
    pub file_path: Seq<char>,
    pub description: Option<Seq<char>>,
    pub session_id: Option<Seq<char>>,
    pub tool_name: Option<Seq<char>>,
    pub at: Seq<char>,
}

/// The first row of a file.
pub open spec fn first_touch(id: int, t: TouchV) -> CodeAreaRowV {
    CodeAreaRowV {
        id: id as i64,
        project: t.project,
        file_path: t.file_path,
        description: t.description,
        session_id: t.session_id,
        tool_name: t.tool_name,
        touch_count: 1,
        first_touched_at: t.at,
        last_touched_at: t.at,
    }
}

/// The row of a file after one more edit: what the edit leaves open stays as it was.
pub open spec fn touched(r: CodeAreaRowV, t: TouchV) -> CodeAreaRowV {
    CodeAreaRowV {
        touch_count: (r.touch_count + 1) as i64,
        last_touched_at: t.at,
        session_id: newest(t.session_id, r.session_id),
        tool_name: newest(t.tool_name, r.tool_name),
        description: newest(t.description, r.description),
        ..r
    }
}

/// The number that the next row gets.
pub open spec fn next_id(rows: Seq<CodeAreaRowV>) -> int {
    if rows.len() == 0 {
        1
    } else {
        rows.last().id + 1
    }
}

/// Why an edit cannot be noted, where it cannot: the numbers of the rows, or the count of the
/// file's edits, are used up.
pub open spec fn touch_refusal(rows: Seq<CodeAreaRowV>, t: TouchV) -> Option<ErrorV> {
    match table::find(rows, is_file(t.project, t.file_path)) {
        Some(i) => if rows[i].touch_count < i64::MAX {
            None
        } else {
            Some(ErrorV::Database("touch count out of range"@))
        },
        None => if next_id(rows) <= i64::MAX {
            None
        } else {
            Some(ErrorV::Database("database or disk is full"@))
        },
    }
}

/// The table after an edit.
pub open spec fn rows_after_touch(rows: Seq<CodeAreaRowV>, t: TouchV) -> Seq<CodeAreaRowV> {
    if touch_refusal(rows, t) is Some {
        rows
    } else {
        match table::find(rows, is_file(t.project, t.file_path)) {
            Some(i) => rows.update(i, touched(rows[i], t)),
            None => rows.push(first_touch(next_id(rows), t)),
        }
    }
}

/// The readings of a filter on the table.
#[verifier::ext_equal]
pub struct AreaFilterV {
    pub project: Option<Seq<char>>,
    pub in_file: Option<Seq<char>>,
    pub since: Option<(i64, u32)>,
}

/// The path is the fragment or ends with a slash and the fragment.
pub open spec fn is_path_of(path: Seq<char>, fragment: Seq<char>) -> bool {
    path == fragment || (seq!['/'] + fragment).is_suffix_of(path)
}

/// The row passes the filter: its project is the one given, its path is the fragment given or
/// ends with a slash and it, and it was touched no earlier than the time given.
pub open spec fn passes(f: AreaFilterV) -> spec_fn(CodeAreaRowV) -> bool {
    |r: CodeAreaRowV|
        {
            &&& f.project matches Some(p) ==> r.project == p
            &&& f.in_file matches Some(s) ==> is_path_of(r.file_path, s)
            &&& f.since matches Some(t) ==> !time::is_before_instant(r.last_touched_at, t)
        }
}

/// The rows, the one that was touched last first; rows of the same time keep their order.
pub open spec fn latest_first(rows: Seq<CodeAreaRowV>) -> Seq<CodeAreaRowV> {
    order::picked(
        rows,
        order::ordered(
            rows.len(),
            order::by_text(rows.map_values(|r: CodeAreaRowV| r.last_touched_at), true),
        ),
    )
}

/// The edited files that rows stand for.
pub open spec fn areas_of(rows: Seq<CodeAreaRowV>, now: (i64, u32)) -> Seq<CodeAreaV> {
    rows.map_values(|r: CodeAreaRowV| area_of_row(r, now))
}

/// A filter on the table.
pub struct AreaFilter<'a> {
    pub project: Option<&'a str>,
    pub in_file: Option<&'a str>,
    pub since: Option<Timestamp>,
}

/// The reading of a filter.
pub open spec fn filter_view(f: AreaFilter) -> AreaFilterV {
    AreaFilterV {
        project: text::opt_slice(f.project),
        in_file: text::opt_slice(f.in_file),
        since: match f.since {
            Some(t) => Some(t@),
            None => None,
        },
    }
}

fn newest_opt(new: Option<&str>, old_value: &Option<String>) -> (r: Option<String>)
    ensures
        text::opt_text(r) == newest(
            text::opt_slice(new),
            text::opt_text(*old_value),
        ),
{
    match new {
        Some(s) => Some(s.to_owned()),
        None => text::copy_opt(old_value),
    }
}

impl CodeAreas {
    /// The rows of the table.
    pub closed spec fn rows(&self) -> Seq<CodeAreaRowV> {
        table::views(self.rows@)
    }

    /// What holds of the table at all times.
    pub open spec fn wf(&self) -> bool {
        is_table(self.rows())
    }

    /// An empty table.
    pub fn new() -> (r: CodeAreas)
        ensures
            r.wf(),
            r.rows() == Seq::<CodeAreaRowV>::empty(),
    {
        let r = CodeAreas { rows: Vec::new() };
        assert(r.rows() =~= Seq::<CodeAreaRowV>::empty());
        r
    }

    /// The table of the given rows, where they make one.
    pub fn from_rows(rows: Vec<CodeAreaRow>) -> (r: Option<CodeAreas>)
        ensures
            r is Some == is_table(table::views(rows@)),
            r matches Some(t) ==> t.rows() == table::views(rows@),
    {
        let ghost all = table::views(rows@);
        let mut j: usize = 0;
        while j < rows.len()
            invariant
                all == table::views(rows@),
                j <= rows@.len(),
                is_table(all.take(j as int)),
            decreases rows@.len() - j,
        {
            assert(all[j as int] == rows@[j as int]@);
            if rows[j].id <= 0 {
                assert(!is_table(all));
                return None;
            }
            let mut i: usize = 0;
            while i < j
                invariant
                    all == table::views(rows@),
                    i <= j < rows@.len(),
                    all[j as int] == rows@[j as int]@,
                    forall|k: int|
                        0 <= k < i ==> (#[trigger] all[k]).id < all[j as int].id && !(all[k].project
                            == all[j as int].project && all[k].file_path
                            == all[j as int].file_path),
                decreases j - i,
            {
                assert(all[i as int] == rows@[i as int]@);
                if rows[i].id >= rows[j].id {
                    assert(!is_table(all));
                    return None;
                }
                if bytes::same_text(rows[i].file_path.as_str(), rows[j].file_path.as_str())
                    && bytes::same_text(rows[i].project.as_str(), rows[j].project.as_str()) {
                    assert(!is_table(all)) by {
                        assert(all[i as int].project == all[j as int].project);
                    }
                    return None;
                }
                i += 1;
            }
            proof {
                let front = all.take(j as int);
                let next = all.take(j + 1);
                assert forall|a: int, b: int| 0 <= a < b < next.len() implies (#[trigger] next[a]).id
                    < (#[trigger] next[b]).id by {
                    if b < j {
                        assert(front[a].id < front[b].id);
                    }
                }
                assert forall|a: int| 0 <= a < next.len() implies (#[trigger] next[a]).id > 0 by {
                    if a < j {
                        assert(front[a].id > 0);
                    }
                }
                assert forall|a: int, b: int| 0 <= a < b < next.len() implies !(
                #[trigger] next[a].project == #[trigger] next[b].project && next[a].file_path
                    == next[b].file_path) by {
                    if b < j {
                        assert(!(front[a].project == front[b].project && front[a].file_path
                            == front[b].file_path));
                    }
                }
            }
            j += 1;
        }
        assert(all.take(all.len() as int) =~= all);
        Some(CodeAreas { rows })
    }

    /// The number of rows.
    pub fn count(&self) -> (r: usize)
        ensures
            r == self.rows().len(),
    {
        self.rows.len()
    }

    /// The row at a position.
    pub fn row(&self, i: usize) -> (r: &CodeAreaRow)
        requires
            i < self.rows().len(),
        ensures
            r@ == self.rows()[i as int],
    {
        &self.rows[i]
    }

    fn find_file(&self, project: &str, file_path: &str) -> (r: Option<usize>)
        ensures
            match r {
                Some(i) => i < self.rows@.len() && table::find(
                    self.rows(),
                    is_file(project@, file_path@),
                ) == Some(i as int),
                None => table::find(self.rows(), is_file(project@, file_path@)) is None,
            },
    {
        let ghost p = is_file(project@, file_path@);
        let mut i: usize = 0;
        while i < self.rows.len()
            invariant
                i <= self.rows@.len(),
                p == is_file(project@, file_path@),
                forall|k: int| 0 <= k < i ==> !p(#[trigger] self.rows()[k]),
            decreases self.rows@.len() - i,
        {
            assert(self.rows()[i as int] == self.rows@[i as int]@);
            if bytes::same_text(self.rows[i].file_path.as_str(), file_path) && bytes::same_text(
                self.rows[i].project.as_str(),
                project,
            ) {
                proof {
                    table::lemma_found(self.rows(), p, i as int);
                }
                return Some(i);
            }
            i += 1;
        }
        proof {
            table::lemma_not_found(self.rows(), p);
        }
        None
    }

    /// Notes an edit of a file: the first makes its row, each later one is counted there. An edit
    /// fails only where the numbers for it are used up.
    pub fn upsert(
        &mut self,
        project: &str,
        file_path: &str,
        description: Option<&str>,
        session_id: Option<&str>,
        tool_name: Option<&str>,
        now: Timestamp,
    ) -> (r: IcmResult<()>)
        requires
            old(self).wf(),
        ensures
            final(self).wf(),
            ({
                let t = TouchV {
                    project: project@,
                    file_path: file_path@,
                    description: text::opt_slice(description),
                    session_id: text::opt_slice(session_id),
                    tool_name: text::opt_slice(tool_name),
                    at: time::rfc3339_text(now@.0, now@.1),
                };
                &&& final(self).rows() == rows_after_touch(old(self).rows(), t)
                &&& match touch_refusal(old(self).rows(), t) {
                    Some(error) => r matches Err(e) && e@ == error,
                    None => r is Ok,
                }
                &&& time::has_plain_year(now@.0, now@.1) ==> time::keeps_time(t.at)
            }),
    {
        let ghost t = TouchV {
            project: project@,
            file_path: file_path@,
            description: text::opt_slice(description),
            session_id: text::opt_slice(session_id),
            tool_name: text::opt_slice(tool_name),
            at: time::rfc3339_text(now@.0, now@.1),
        };
        let ghost rows = self.rows();
        let at = now.to_rfc3339();
        match self.find_file(project, file_path) {
            Some(i) => {
                assert(rows[i as int] == self.rows@[i as int]@);
                let session = newest_opt(session_id, &self.rows[i].session_id);
                let tool = newest_opt(tool_name, &self.rows[i].tool_name);
                let about = newest_opt(description, &self.rows[i].description);
                let n: i64 = self.rows[i].touch_count;
                if n == i64::MAX {
                    return Err(IcmError::Database("touch count out of range".to_owned()));
                }
                self.rows[i].touch_count = n + 1;
                self.rows[i].last_touched_at = at;
                self.rows[i].session_id = session;
                self.rows[i].tool_name = tool;
                self.rows[i].description = about;
                assert(self.rows() =~= rows.update(i as int, touched(rows[i as int], t)));
                Ok(())
            },
            None => {
                let n: usize = self.rows.len();
                let id: i64 = if n == 0 {
                    1
                } else {
                    assert(rows.last() == self.rows@[n - 1]@);
                    let last: i64 = self.rows[n - 1].id;
                    if last == i64::MAX {
                        return Err(IcmError::Database("database or disk is full".to_owned()));
                    }
                    last + 1
                };
                proof {
                    table::lemma_find(rows, is_file(project@, file_path@));
                    assert forall|i: int| 0 <= i < rows.len() implies !(rows[i].project == t.project
                        && #[trigger] rows[i].file_path == t.file_path) by {
                        assert(!is_file(project@, file_path@)(rows[i]));
                    }
                }
                let row = CodeAreaRow {
                    id,
                    project: project.to_owned(),
                    file_path: file_path.to_owned(),
                    description: text::own_opt(description),
                    session_id: text::own_opt(session_id),
                    tool_name: text::own_opt(tool_name),
                    touch_count: 1,
                    first_touched_at: at.clone(),
                    last_touched_at: at,
                };
                let ghost new = row@;
                assert(new == first_touch(next_id(rows), t));
                self.rows.push(row);
                assert(self.rows() =~= rows.push(new));
                Ok(())
            },
        }
    }

    /// The edited files that pass a filter, the one that was touched last first: at most `limit`.
    pub fn list(&self, filter: &AreaFilter, limit: usize, now: Timestamp) -> (r: Vec<CodeArea>)
        ensures
            table::views(r@) == areas_of(
                table::at_most(
                    latest_first(self.rows().filter(passes(filter_view(*filter)))),
                    limit as nat,
                ),
                now@,
            ),
    {
        let ghost f = filter_view(*filter);
        let ghost rows = self.rows();
        let ghost hits = rows.filter(passes(f));
        let mut at: Vec<usize> = Vec::new();
        let mut i: usize = 0;
        proof {
            reveal(Seq::filter);
            assert(order::picked(rows, order::positions(at@)) =~= rows.take(0).filter(passes(f)));
        }
        while i < self.rows.len()
            invariant
                rows == self.rows(),
                rows.len() == self.rows@.len(),
                f == filter_view(*filter),
                i <= rows.len(),
                forall|k: int| 0 <= k < at@.len() ==> #[trigger] at@[k] < rows.len(),
                order::picked(rows, order::positions(at@)) == rows.take(i as int).filter(passes(f)),
            decreases rows.len() - i,
        {
            proof {
                reveal(Seq::filter);
                assert(rows[i as int] == self.rows@[i as int]@);
                assert(rows.take(i + 1).drop_last() =~= rows.take(i as int));
                assert(rows.take(i + 1).last() == rows[i as int]);
            }
            let row = &self.rows[i];
            let right_project = match filter.project {
                Some(p) => bytes::same_text(row.project.as_str(), p),
                None => true,
            };
            let right_file = match filter.in_file {
                Some(s) => is_path(row.file_path.as_str(), s),
                None => true,
            };
            let late_enough = match filter.since {
                Some(t) => !time::before_instant(row.last_touched_at.as_str(), t),
                None => true,
            };
            assert((right_project && right_file && late_enough) == passes(f)(row@));
            if right_project && right_file && late_enough {
                let ghost before = order::picked(rows, order::positions(at@));
                at.push(i);
                assert(order::picked(rows, order::positions(at@)) =~= before.push(rows[i as int]));
            }
            i += 1;
        }
        assert(rows.take(rows.len() as int) =~= rows);
        let ghost times = hits.map_values(|r: CodeAreaRowV| r.last_touched_at);
        let mut keys: Vec<&str> = Vec::new();
        let mut j: usize = 0;
        assert(text::slices(keys@) =~= times.take(0));
        assert(hits.len() == at@.len());
        while j < at.len()
            invariant
                rows == self.rows(),
                rows.len() == self.rows@.len(),
                forall|k: int| 0 <= k < at@.len() ==> #[trigger] at@[k] < rows.len(),
                hits == order::picked(rows, order::positions(at@)),
                times == hits.map_values(|r: CodeAreaRowV| r.last_touched_at),
                j <= at@.len(),
                text::slices(keys@) == times.take(j as int),
            decreases at@.len() - j,
        {
            let key = self.rows[at[j]].last_touched_at.as_str();
            let ghost before = text::slices(keys@);
            assert(hits[j as int] == self.rows@[at@[j as int] as int]@);
            keys.push(key);
            assert(text::slices(keys@) =~= before.push(key@));
            assert(times.take(j + 1) =~= times.take(j as int).push(times[j as int]));
            j += 1;
        }
        assert(times.take(j as int) =~= times);
        let sorted = order::order_texts(&keys, true);
        assert(text::slices(keys@).len() == keys@.len());
        let ghost wanted = latest_first(hits);
        let ghost goal = areas_of(table::at_most(wanted, limit as nat), now@);
        let mut r: Vec<CodeArea> = Vec::new();
        let mut k: usize = 0;
        assert(table::views(r@) =~= goal.take(0));
        while k < sorted.len() && k < limit
            invariant
                rows == self.rows(),
                rows.len() == self.rows@.len(),
                forall|k: int| 0 <= k < at@.len() ==> #[trigger] at@[k] < rows.len(),
                hits == order::picked(rows, order::positions(at@)),
                k <= sorted@.len(),
                k <= limit,
                sorted@.len() == at@.len(),
                forall|i: int| 0 <= i < sorted@.len() ==> #[trigger] sorted@[i] < at@.len(),
                wanted == order::picked(hits, order::positions(sorted@)),
                goal == areas_of(table::at_most(wanted, limit as nat), now@),
                table::views(r@) == goal.take(k as int),
            decreases sorted@.len() - k,
        {
            let area = row_to_area(&self.rows[at[sorted[k]]], now);
            let ghost before = table::views(r@);
            let ghost reading = area@;
            assert(wanted[k as int] == hits[sorted@[k as int] as int]);
            assert(reading == goal[k as int]);
            r.push(area);
            assert(table::views(r@) =~= before.push(reading));
            assert(goal.take(k + 1) =~= goal.take(k as int).push(goal[k as int]));
            k += 1;
        }
        assert(goal.len() == k);
        assert(goal.take(k as int) =~= goal);
        r
    }
}

fn is_path(path: &str, fragment: &str) -> (r: bool)
    ensures
        r == is_path_of(path@, fragment@),
{
    let mut ending = String::new();
    ending.push('/');
    ending.append(fragment);
    assert(ending@ =~= seq!['/'] + fragment@);
    bytes::same_text(path, fragment) || text::ends_with(path, ending.as_str())
}

/// No row in the list stands behind one that was touched later.
pub proof fn lemma_latest_first(rows: Seq<CodeAreaRowV>)
    ensures
        latest_first(rows).len() == rows.len(),
        forall|i: int, j: int|
            0 <= i < j < rows.len() ==> !bytes::text_before(
                (#[trigger] latest_first(rows)[i]).last_touched_at,
                (#[trigger] latest_first(rows)[j]).last_touched_at,
            ),
        latest_first(rows).to_multiset() == rows.to_multiset(),
{
    let times = rows.map_values(|r: CodeAreaRowV| r.last_touched_at);
    let before = order::by_text(times, true);
    order::lemma_by_text_ranks(times, true);
    order::lemma_ordered(rows.len(), before);
    let o = order::ordered(rows.len(), before);
    assert forall|i: int, j: int| 0 <= i < j < rows.len() implies !bytes::text_before(
        (#[trigger] latest_first(rows)[i]).last_touched_at,
        (#[trigger] latest_first(rows)[j]).last_touched_at,
    ) by {
        assert(!before(o[j], o[i]));
        assert(times[o[i]] == rows[o[i]].last_touched_at && times[o[j]]
            == rows[o[j]].last_touched_at);
    }
    order::lemma_picked_is_permutation(rows, o);
}

/// Where the times of the rows are such as the clock gives, the row that was touched last stands
/// first.
pub proof fn lemma_latest_first_in_time(rows: Seq<CodeAreaRowV>)
    requires
        forall|i: int|
            0 <= i < rows.len() ==> time::keeps_time((#[trigger] rows[i]).last_touched_at),
    ensures
        forall|i: int, j: int|
            0 <= i < j < rows.len() ==> !time::is_earlier(
                time::time_of((#[trigger] latest_first(rows)[i]).last_touched_at),
                time::time_of((#[trigger] latest_first(rows)[j]).last_touched_at),
            ),
{
    lemma_latest_first(rows);
    let out = latest_first(rows);
    let times = rows.map_values(|r: CodeAreaRowV| r.last_touched_at);
    let before = order::by_text(times, true);
    order::lemma_by_text_ranks(times, true);
    order::lemma_ordered(rows.len(), before);
    assert forall|i: int, j: int| 0 <= i < j < rows.len() implies !time::is_earlier(
        time::time_of((#[trigger] out[i]).last_touched_at),
        time::time_of((#[trigger] out[j]).last_touched_at),
    ) by {
        let o = order::ordered(rows.len(), before);
        assert(out[i] == rows[o[i]] && out[j] == rows[o[j]]);
        time::lemma_text_order_is_time_order(out[i].last_touched_at, out[j].last_touched_at);
    }
}

/// A row passes the filter on the time exactly if it was touched no earlier than that time.
pub proof fn lemma_since_is_by_time(r: CodeAreaRowV, since: (i64, u32))
    requires
        time::rfc3339_parsed(r.last_touched_at) is Some,
    ensures
        passes(AreaFilterV { project: None, in_file: None, since: Some(since) })(r)
            == !time::is_earlier(time::time_of(r.last_touched_at), since),
{
}

/// A path that a filter on the file lets through is the fragment or ends with it.
pub proof fn lemma_listed_paths_end_with_fragment(r: CodeAreaRowV, f: AreaFilterV, fragment: Seq<char>)
    requires
        f.in_file == Some(fragment),
        passes(f)(r),
    ensures
        fragment.is_suffix_of(r.file_path),
{
    let ending = seq!['/'] + fragment;
    let path = r.file_path;
    if path == fragment {
        assert(fragment =~= path.subrange(path.len() - fragment.len(), path.len() as int));
    } else {
        assert(ending == path.subrange(path.len() - ending.len(), path.len() as int));
        assert forall|i: int| 0 <= i < fragment.len() implies fragment[i] == path[path.len()
            - fragment.len() + i] by {
            assert(ending[i + 1] == path[path.len() - ending.len() + i + 1]);
        }
        assert(fragment =~= path.subrange(path.len() - fragment.len(), path.len() as int));
    }
}

/// A file has one row however often it is edited: a second edit adds no row, counts one more,
/// keeps the time of the first and what it says nothing about.
pub proof fn lemma_second_touch(rows: Seq<CodeAreaRowV>, first: TouchV, second: TouchV)
    requires
        is_table(rows),
        table::find(rows, is_file(first.project, first.file_path)) is None,
        next_id(rows) <= i64::MAX,
        second.project == first.project,
        second.file_path == first.file_path,
    ensures
        ({
            let one = rows_after_touch(rows, first);
            let two = rows_after_touch(one, second);
            &&& two.len() == one.len() == rows.len() + 1
            &&& two.last().touch_count == 2
            &&& two.last().first_touched_at == first.at
            &&& two.last().last_touched_at == second.at
            &&& two.last().description == newest(second.description, first.description)
            &&& two.last().session_id == newest(second.session_id, first.session_id)
            &&& two.last().tool_name == newest(second.tool_name, first.tool_name)
        }),
{
    let p = is_file(first.project, first.file_path);
    let one = rows_after_touch(rows, first);
    table::lemma_find(rows, p);
    assert forall|j: int| 0 <= j < rows.len() implies !p(#[trigger] one[j]) by {
        assert(one[j] == rows[j]);
    }
    assert(table::is_first(one, p, rows.len() as int));
    table::lemma_found(one, p, rows.len() as int);
}

// ---------------------------------------------------------------------------
// What edits leave behind
// ---------------------------------------------------------------------------

/// Rows and edited files are read field by field.
pub proof fn lemma_areas_are_read_field_by_field(r: CodeAreaRow, a: CodeArea)
    ensures
        r@.id == r.id,
        r@.project == r.project@,
        r@.file_path == r.file_path@,
        r.description matches Some(s) ==> r@.description == Some(s@),
        r@.description is Some == r.description is Some,
        r.session_id matches Some(s) ==> r@.session_id == Some(s@),
        r@.session_id is Some == r.session_id is Some,
        r.tool_name matches Some(s) ==> r@.tool_name == Some(s@),
        r@.tool_name is Some == r.tool_name is Some,
        r@.touch_count == r.touch_count,
        r@.first_touched_at == r.first_touched_at@,
        r@.last_touched_at == r.last_touched_at@,
        a@.id == a.id,
        a@.project == a.project@,
        a@.file_path == a.file_path@,
        a.description matches Some(s) ==> a@.description == Some(s@),
        a@.description is Some == a.description is Some,
        a.session_id matches Some(s) ==> a@.session_id == Some(s@),
        a@.session_id is Some == a.session_id is Some,
        a.tool_name matches Some(s) ==> a@.tool_name == Some(s@),
        a@.tool_name is Some == a.tool_name is Some,
        a@.touch_count == a.touch_count,
        a@.first_touched_at == a.first_touched_at@,
        a@.last_touched_at == a.last_touched_at@,
{
}

/// Each column of a row gives the field of the same name.
pub proof fn lemma_each_column_gives_its_field(r: CodeAreaRowV, now: (i64, u32))
    ensures
        ({
            let a = area_of_row(r, now);
            &&& a.id == r.id && a.project == r.project && a.file_path == r.file_path
            &&& a.description == r.description && a.session_id == r.session_id
            &&& a.tool_name == r.tool_name && a.touch_count == r.touch_count
            &&& a.first_touched_at == time::dt_of(r.first_touched_at, now)
            &&& a.last_touched_at == time::dt_of(r.last_touched_at, now)
        }),
{
}

/// The first edit of a file makes a row with all that is known of the edit, counted once.
pub proof fn lemma_first_edit_makes_a_row(rows: Seq<CodeAreaRowV>, t: TouchV)
    requires
        is_table(rows),
        forall|i: int|
            0 <= i < rows.len() ==> !((#[trigger] rows[i]).project == t.project && rows[i].file_path
                == t.file_path),
        rows.len() > 0 ==> rows[rows.len() - 1].id < i64::MAX,
    ensures
        ({
            let out = rows_after_touch(rows, t);
            let new = out[rows.len() as int];
            &&& touch_refusal(rows, t) is None
            &&& out.len() == rows.len() + 1
            &&& forall|i: int| 0 <= i < rows.len() ==> #[trigger] out[i] == rows[i]
            &&& new.id == if rows.len() == 0 {
                1
            } else {
                rows[rows.len() - 1].id + 1
            }
            &&& new.project == t.project && new.file_path == t.file_path
            &&& new.description == t.description && new.session_id == t.session_id
            &&& new.tool_name == t.tool_name && new.touch_count == 1
            &&& new.first_touched_at == t.at && new.last_touched_at == t.at
        }),
{
    let p = is_file(t.project, t.file_path);
    table::lemma_find(rows, p);
    if table::find(rows, p) is Some {
        assert(p(rows[table::find(rows, p)->0]));
    }
}

/// Every further edit counts one more, whatever the count was, and notes its time; what the edit
/// says replaces what was known, and what it does not say stays. No other row changes.
pub proof fn lemma_further_edit_counts_one_more(rows: Seq<CodeAreaRowV>, t: TouchV, at: int, k: int)
    requires
        is_table(rows),
        0 <= at < rows.len(),
        0 <= k < rows.len(),
        rows[at].project == t.project,
        rows[at].file_path == t.file_path,
        rows[at].touch_count < i64::MAX,
    ensures
        ({
            let out = rows_after_touch(rows, t);
            let old_row = rows[at];
            let new = out[at];
            &&& touch_refusal(rows, t) is None
            &&& out.len() == rows.len()
            &&& k != at ==> out[k] == rows[k]
            &&& new.touch_count == old_row.touch_count + 1
            &&& new.last_touched_at == t.at
            &&& new.first_touched_at == old_row.first_touched_at
            &&& new.id == old_row.id && new.project == old_row.project && new.file_path
                == old_row.file_path
            &&& t.description is Some ==> new.description == t.description
            &&& t.description is None ==> new.description == old_row.description
            &&& t.session_id is Some ==> new.session_id == t.session_id
            &&& t.session_id is None ==> new.session_id == old_row.session_id
            &&& t.tool_name is Some ==> new.tool_name == t.tool_name
            &&& t.tool_name is None ==> new.tool_name == old_row.tool_name
        }),
{
    let p = is_file(t.project, t.file_path);
    assert forall|j: int| 0 <= j < at implies !p(#[trigger] rows[j]) by {
        assert(!(rows[j].project == rows[at].project && rows[j].file_path == rows[at].file_path));
    }
    assert(table::is_first(rows, p, at));
    table::lemma_found(rows, p, at);
}

/// After every edit each file still has one row, and the rows their ascending numbers.
pub proof fn lemma_edit_keeps_files_apart(rows: Seq<CodeAreaRowV>, t: TouchV)
    requires
        is_table(rows),
    ensures
        is_table(rows_after_touch(rows, t)),
{
    let p = is_file(t.project, t.file_path);
    table::lemma_find(rows, p);
    let out = rows_after_touch(rows, t);
    if touch_refusal(rows, t) is None {
        match table::find(rows, p) {
            Some(at) => {
                assert forall|i: int| 0 <= i < out.len() implies (#[trigger] out[i]).id
                    == rows[i].id && out[i].project == rows[i].project && out[i].file_path
                    == rows[i].file_path by {}
            },
            None => {
                assert forall|i: int| 0 <= i < rows.len() implies (#[trigger] rows[i]).id
                    < out[rows.len() as int].id by {
                    if i < rows.len() - 1 {
                        assert(rows[i].id < rows[rows.len() - 1].id);
                    }
                }
                assert forall|i: int| 0 <= i < rows.len() implies !((
                #[trigger] rows[i]).project == t.project && rows[i].file_path == t.file_path) by {
                    assert(!p(rows[i]));
                }
            },
        }
    }
}

/// The table after some edits, one after the other.
pub open spec fn rows_after_touches(rows: Seq<CodeAreaRowV>, edits: Seq<TouchV>) -> Seq<CodeAreaRowV>
    decreases edits.len(),
{
    if edits.len() == 0 {
        rows
    } else {
        rows_after_touch(rows_after_touches(rows, edits.drop_last()), edits.last())
    }
}

/// However often a new file is edited, it has one row, and the row counts the edits.
pub proof fn lemma_edits_are_counted(rows: Seq<CodeAreaRowV>, edits: Seq<TouchV>)
    requires
        is_table(rows),
        0 < edits.len() <= i64::MAX,
        forall|i: int|
            0 <= i < edits.len() ==> (#[trigger] edits[i]).project == edits[0].project
                && edits[i].file_path == edits[0].file_path,
        forall|i: int|
            0 <= i < rows.len() ==> !((#[trigger] rows[i]).project == edits[0].project
                && rows[i].file_path == edits[0].file_path),
        rows.len() > 0 ==> rows[rows.len() - 1].id < i64::MAX,
    ensures
        ({
            let out = rows_after_touches(rows, edits);
            let row = out[rows.len() as int];
            &&& is_table(out)
            &&& out.len() == rows.len() + 1
            &&& row.project == edits[0].project && row.file_path == edits[0].file_path
            &&& row.touch_count == edits.len()
            &&& row.first_touched_at == edits[0].at
            &&& row.last_touched_at == edits[edits.len() - 1].at
        }),
    decreases edits.len(),
{
    let front = edits.drop_last();
    let t = edits.last();
    assert(t == edits[edits.len() - 1]);
    if edits.len() == 1 {
        assert(rows_after_touches(rows, front) == rows);
        lemma_first_edit_makes_a_row(rows, t);
        lemma_edit_keeps_files_apart(rows, t);
    } else {
        assert forall|i: int| 0 <= i < front.len() implies (#[trigger] front[i]).project
            == front[0].project && front[i].file_path == front[0].file_path by {
            assert(front[i] == edits[i]);
        }
        assert(front[0] == edits[0]);
        lemma_edits_are_counted(rows, front);
        let mid = rows_after_touches(rows, front);
        lemma_further_edit_counts_one_more(mid, t, rows.len() as int, 0);
        lemma_edit_keeps_files_apart(mid, t);
    }
}

/// An edit cannot be noted only where the count of the file, or the numbers of the rows, are used
/// up.
pub proof fn lemma_when_an_edit_is_refused(rows: Seq<CodeAreaRowV>, t: TouchV)
    ensures
        touch_refusal(rows, t) is Some ==> rows_after_touch(rows, t) == rows,
        touch_refusal(rows, t) matches Some(e) ==> e is Database && (exists|i: int|
            0 <= i < rows.len() && ((#[trigger] rows[i]).touch_count == i64::MAX || rows[i].id
                == i64::MAX)),
{
    let p = is_file(t.project, t.file_path);
    table::lemma_find(rows, p);
    if touch_refusal(rows, t) is Some {
        match table::find(rows, p) {
            Some(i) => {
                assert(rows[i].touch_count == i64::MAX);
            },
            None => {
                assert(rows[rows.len() - 1].id == i64::MAX);
            },
        }
    }
}

/// A list without filters holds every row; each filter that is given lets through exactly what it
/// says: this project, this file or a path that ends with a slash and it, touched no earlier.
pub proof fn lemma_filters_are_exact(
    r: CodeAreaRowV,
    project: Seq<char>,
    fragment: Seq<char>,
    folder: Seq<char>,
    since: (i64, u32),
)
    ensures
        passes(AreaFilterV { project: None, in_file: None, since: None })(r),
        passes(AreaFilterV { project: Some(project), in_file: None, since: None })(r) == (r.project
            == project),
        r.file_path == fragment ==> passes(
            AreaFilterV { project: None, in_file: Some(fragment), since: None },
        )(r),
        r.file_path == folder + seq!['/'] + fragment ==> passes(
            AreaFilterV { project: None, in_file: Some(fragment), since: None },
        )(r),
        passes(AreaFilterV { project: None, in_file: Some(fragment), since: None })(r)
            && r.file_path != fragment ==> r.file_path.len() > fragment.len()
            && r.file_path[r.file_path.len() - fragment.len() - 1] == '/'
            && r.file_path.skip(r.file_path.len() - fragment.len()) == fragment,
        passes(
            AreaFilterV { project: Some(project), in_file: Some(fragment), since: Some(since) },
        )(r) == (passes(AreaFilterV { project: Some(project), in_file: None, since: None })(r)
            && passes(AreaFilterV { project: None, in_file: Some(fragment), since: None })(r)
            && passes(AreaFilterV { project: None, in_file: None, since: Some(since) })(r)),
        passes(AreaFilterV { project: None, in_file: None, since: Some(since) })(r)
            == !time::is_before_instant(r.last_touched_at, since),
{
    let ending = seq!['/'] + fragment;
    let path = folder + seq!['/'] + fragment;
    assert(path.subrange(path.len() - ending.len(), path.len() as int) =~= ending);
    if is_path_of(r.file_path, fragment) && r.file_path != fragment {
        let p = r.file_path;
        let tail = p.subrange(p.len() - ending.len(), p.len() as int);
        assert(tail == ending);
        assert(tail[0] == p[p.len() - ending.len()]);
        assert(p.skip(p.len() - fragment.len()) =~= fragment) by {
            assert forall|i: int| 0 <= i < fragment.len() implies p[p.len() - fragment.len() + i]
                == fragment[i] by {
                assert(tail[i + 1] == ending[i + 1]);
            }
        }
    }
}

/// Edited files are read row by row, and a filter field by field.
pub proof fn lemma_areas_are_read_row_by_row(
    rows: Seq<CodeAreaRowV>,
    now: (i64, u32),
    i: int,
    f: AreaFilter,
)
    requires
        0 <= i < rows.len(),
    ensures
        areas_of(rows, now).len() == rows.len(),
        areas_of(rows, now)[i] == area_of_row(rows[i], now),
        f.project matches Some(s) ==> filter_view(f).project == Some(s@),
        filter_view(f).project is Some == f.project is Some,
        f.in_file matches Some(s) ==> filter_view(f).in_file == Some(s@),
        filter_view(f).in_file is Some == f.in_file is Some,
        f.since matches Some(t) ==> filter_view(f).since == Some(t@),
        filter_view(f).since is Some == f.since is Some,
{
}

/// An edit adds one to the count of a row, notes its own time as the latest, and replaces what it
/// says anew; what names the row, and the time of the first edit, stay.
pub proof fn lemma_touching_adds_one(r: CodeAreaRowV, t: TouchV)
    requires
        r.touch_count < i64::MAX,
    ensures
        touched(r, t).touch_count == r.touch_count + 1,
        touched(r, t).last_touched_at == t.at,
        touched(r, t).first_touched_at == r.first_touched_at,
        touched(r, t).id == r.id,
        touched(r, t).project == r.project,
        touched(r, t).file_path == r.file_path,
        touched(r, t).description == if t.description is Some {
            t.description
        } else {
            r.description
        },
        touched(r, t).session_id == if t.session_id is Some {
            t.session_id
        } else {
            r.session_id
        },
        touched(r, t).tool_name == if t.tool_name is Some {
            t.tool_name
        } else {
            r.tool_name
        },
{
}

} // verus!
