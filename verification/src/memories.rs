//! The table of memories.
use vstd::prelude::*;
use vstd::string::*;
use crate::bytes;
use crate::digest;
use crate::error::{ErrorV, IcmError, IcmResult};
use crate::json;
use crate::memory;
use crate::memory::{Importance, Memory, MemoryV};
use crate::queries;
use crate::relations;
use crate::row;
use crate::row::{MemoryRow, MemoryRowV};
use crate::table;
use crate::text;
use crate::time;
use crate::time::Timestamp;

verus! {

/// The table of memories, with the number of components that its embeddings have.
pub struct Memories {
    rows: Vec<MemoryRow>,
    dims: usize,
}

/// No two rows have the same identifier.
pub open spec fn distinct_ids(rows: Seq<MemoryRowV>) -> bool {
    forall|i: int, j: int|
        0 <= i < j < rows.len() ==> #[trigger] rows[i].id != #[trigger] rows[j].id
}

/// No two rows have the same fingerprint.
pub open spec fn distinct_hashes(rows: Seq<MemoryRowV>) -> bool {
    forall|i: int, j: int|
        0 <= i < j < rows.len() && #[trigger] rows[i].summary_hash is Some ==> rows[i].summary_hash
            != #[trigger] rows[j].summary_hash
}

/// What holds of the table at all times.
pub open spec fn is_table(rows: Seq<MemoryRowV>) -> bool {
    &&& distinct_ids(rows)
    &&& distinct_hashes(rows)
}

/// The row has this identifier.
pub open spec fn has_id(id: Seq<char>) -> spec_fn(MemoryRowV) -> bool {
    |r: MemoryRowV| r.id == id
}

/// The row has this fingerprint.
pub open spec fn has_hash(hash: Seq<char>) -> spec_fn(MemoryRowV) -> bool {
    |r: MemoryRowV| r.summary_hash == Some(hash)
}

// ---------------------------------------------------------------------------
// Storing
// ---------------------------------------------------------------------------

/// `a`, followed by the elements of `b` that are not yet there.
pub open spec fn union(a: Seq<Seq<char>>, b: Seq<Seq<char>>) -> Seq<Seq<char>>
    decreases b.len(),
{
    if b.len() == 0 {
        a
    } else {
        let u = union(a, b.drop_last());
        if u.contains(b.last()) {
            u
        } else {
            u.push(b.last())
        }
    }
}

/// The importance of a row after a memory of the same content was stored again.
pub open spec fn merged_importance(r: MemoryRowV, m: MemoryV) -> Importance {
    memory::higher(memory::importance_of(r.importance), m.importance)
}

/// The keywords of a row after a memory of the same content was stored again.
pub open spec fn merged_keywords(r: MemoryRowV, m: MemoryV) -> Seq<Seq<char>> {
    union(json::strings_of(r.keywords), m.keywords)
}

/// The excerpt of a row after a memory of the same content was stored again.
pub open spec fn merged_excerpt(r: MemoryRowV, m: MemoryV) -> Option<Seq<char>> {
    match m.raw_excerpt {
        Some(s) => Some(s),
        None => r.raw_excerpt,
    }
}

/// The row already holds all that storing the memory again would add to it.
pub open spec fn absorbs(r: MemoryRowV, m: MemoryV) -> bool {
    &&& merged_importance(r, m) == memory::importance_of(r.importance)
    &&& merged_keywords(r, m) == json::strings_of(r.keywords)
    &&& merged_excerpt(r, m) == r.raw_excerpt
}

/// The row after a memory of the same content was stored again.
pub open spec fn merged(r: MemoryRowV, m: MemoryV, now: (i64, u32)) -> MemoryRowV {
    if absorbs(r, m) {
        r
    } else {
        MemoryRowV {
            importance: memory::importance_text(merged_importance(r, m)),
            keywords: Some(json::json_text(merged_keywords(r, m))),
            raw_excerpt: merged_excerpt(r, m),
            updated_at: Some(time::rfc3339_text(now.0, now.1)),
            ..r
        }
    }
}

/// Why an embedding cannot be kept among vectors of `dims` components, where it cannot.
pub open spec fn vector_refusal(e: Option<Seq<u32>>, dims: nat) -> Option<ErrorV> {
    match e {
        Some(v) => if v.len() == 0 {
            Some(
                ErrorV::Database(
                    "Inserted vector for the \"embedding\" column is invalid: zero-length vectors are not supported."@,
                ),
            )
        } else if v.len() != dims {
            Some(
                ErrorV::Database(
                    "Dimension mismatch for inserted vector for the \"embedding\" column. Expected "@
                        + text::decimal(dims) + " dimensions but received "@ + text::decimal(
                        v.len(),
                    ) + "."@,
                ),
            )
        } else {
            None
        },
        None => None,
    }
}

/// Whether an embedding can be kept among vectors of `dims` components, or why it cannot.
fn check_vector(e: &Option<Vec<u32>>, dims: usize) -> (r: IcmResult<()>)
    ensures
        match vector_refusal(memory::opt_vector(*e), dims as nat) {
            Some(error) => r matches Err(x) && x@ == error,
            None => r is Ok,
        },
{
    match e {
        Some(v) => {
            if v.len() == 0 {
                return Err(
                    IcmError::Database(
                        "Inserted vector for the \"embedding\" column is invalid: zero-length vectors are not supported.".to_owned(),
                    ),
                );
            }
            if v.len() != dims {
                let mut message =
                    "Dimension mismatch for inserted vector for the \"embedding\" column. Expected ".to_owned();
                message.append(text::to_decimal(dims as u64).as_str());
                message.append(" dimensions but received ");
                message.append(text::to_decimal(v.len() as u64).as_str());
                message.append(".");
                return Err(IcmError::Database(message));
            }
            Ok(())
        },
        None => Ok(()),
    }
}

/// What becomes of a memory that is stored.
pub enum StoreStep {
    /// It gets a row of its own.
    Insert,
    /// Row `at` has the same content, and takes up what is new.
    Merge { at: int },
    /// It is not stored.
    Fail { error: ErrorV },
}

/// What becomes of a memory that is stored.
pub open spec fn store_step(rows: Seq<MemoryRowV>, dims: nat, m: MemoryV) -> StoreStep {
    let same = table::find(rows, has_hash(digest::summary_hash_text(m.topic, m.summary)));
    if same is None && table::find(rows, has_id(m.id)) is None {
        match vector_refusal(m.embedding, dims) {
            Some(error) => StoreStep::Fail { error },
            None => StoreStep::Insert,
        }
    } else {
        match same {
            Some(at) => if rows[at].keywords is Some {
                StoreStep::Merge { at }
            } else {
                StoreStep::Fail {
                    error: ErrorV::Database(
                        "Invalid column type Null at index: 2, name: keywords"@,
                    ),
                }
            },
            None => StoreStep::Fail { error: ErrorV::Database("Query returned no rows"@) },
        }
    }
}

/// The table after a memory was stored.
pub open spec fn rows_after_store(
    rows: Seq<MemoryRowV>,
    dims: nat,
    m: MemoryV,
    now: (i64, u32),
) -> Seq<MemoryRowV> {
    match store_step(rows, dims, m) {
        StoreStep::Insert => rows.push(row::row_of_memory(m)),
        StoreStep::Merge { at } => rows.update(at, merged(rows[at], m, now)),
        StoreStep::Fail { .. } => rows,
    }
}

/// What storing a memory keeps: a row of its own gives back its lists, and the whole memory where
/// its times lie in the years 0 to 9999; a row that was there gives back its own keywords with the
/// new ones behind them. Either row holds all that the memory adds.
pub open spec fn is_kept(
    before: Seq<MemoryRowV>,
    after: Seq<MemoryRowV>,
    dims: nat,
    m: MemoryV,
) -> bool {
    match store_step(before, dims, m) {
        StoreStep::Insert => {
            &&& row::lists_read_back(after.last(), m)
            &&& row::has_plain_times(m) ==> row::reads_back(after.last(), m)
            &&& absorbs(after.last(), m)
        },
        StoreStep::Merge { at } => {
            &&& json::strings_of(after[at].keywords) == merged_keywords(before[at], m)
            &&& absorbs(after[at], m)
        },
        StoreStep::Fail { .. } => true,
    }
}

/// Storing the memory adds something to a row that is there.
pub open spec fn takes_up(rows: Seq<MemoryRowV>, dims: nat, m: MemoryV) -> bool {
    store_step(rows, dims, m) matches StoreStep::Merge { at } && !absorbs(rows[at], m)
}

/// A memory that was stored: the identifier of its row, and whether a row that was there before
/// has changed.
pub struct Stored {
    pub id: String,
    pub changed: bool,
}

/// Adds the strings of `more` that are not yet there; tells whether there were any.
fn add_missing(list: &mut Vec<String>, more: &Vec<String>) -> (added: bool)
    ensures
        text::texts(final(list)@) == union(text::texts(old(list)@), text::texts(more@)),
        added == (text::texts(final(list)@) != text::texts(old(list)@)),
{
    let ghost start = text::texts(list@);
    let ghost all = text::texts(more@);
    let mut added = false;
    let mut i: usize = 0;
    assert(all.take(0) =~= seq![]);
    while i < more.len()
        invariant
            i <= more@.len(),
            all == text::texts(more@),
            text::texts(list@) == union(start, all.take(i as int)),
            list@.len() >= start.len(),
            added == (list@.len() > start.len()),
            !added ==> text::texts(list@) == start,
        decreases more@.len() - i,
    {
        assert(all.take(i + 1).drop_last() =~= all.take(i as int));
        assert(all.take(i + 1).last() == more@[i as int]@);
        if !relations::lists(list, more[i].as_str()) {
            let ghost before = text::texts(list@);
            list.push(more[i].clone());
            assert(text::texts(list@) =~= before.push(more@[i as int]@));
            added = true;
        }
        i += 1;
    }
    assert(all.take(all.len() as int) =~= all);
    assert(text::texts(list@).len() == list@.len());
    added
}

fn same_opt(a: &Option<String>, b: &Option<String>) -> (r: bool)
    ensures
        r == (text::opt_text(*a) == text::opt_text(*b)),
{
    match (a, b) {
        (Some(x), Some(y)) => bytes::same_text(x.as_str(), y.as_str()),
        (None, None) => true,
        _ => false,
    }
}

impl Memories {
    /// The rows of the table.
    pub closed spec fn rows(&self) -> Seq<MemoryRowV> {
        table::views(self.rows@)
    }

    /// The number of components that an embedding has.
    pub closed spec fn dims(&self) -> nat {
        self.dims as nat
    }

    /// What holds of the table at all times.
    pub open spec fn wf(&self) -> bool {
        is_table(self.rows())
    }

    /// An empty table for embeddings of `dims` components.
    pub fn new(dims: usize) -> (r: Memories)
        ensures
            r.wf(),
            r.rows() == Seq::<MemoryRowV>::empty(),
            r.dims() == dims,
    {
        let r = Memories { rows: Vec::new(), dims };
        assert(r.rows() =~= Seq::<MemoryRowV>::empty());
        r
    }

    /// The table of the given rows, where they make one.
    pub fn from_rows(rows: Vec<MemoryRow>, dims: usize) -> (r: Option<Memories>)
        ensures
            r is Some == is_table(table::views(rows@)),
            r matches Some(t) ==> t.rows() == table::views(rows@) && t.dims() == dims,
    {
        let ghost all = table::views(rows@);
        let mut j: usize = 0;
        while j < rows.len()
            invariant
                all == table::views(rows@),
                j <= rows@.len(),
                is_table(all.take(j as int)),
            decreases rows@.len() - j,
        {
            assert(all[j as int] == rows@[j as int]@);
            let mut i: usize = 0;
            while i < j
                invariant
                    all == table::views(rows@),
                    i <= j < rows@.len(),
                    all[j as int] == rows@[j as int]@,
                    forall|k: int|
                        0 <= k < i ==> (#[trigger] all[k]).id != all[j as int].id && (
                        all[k].summary_hash is Some ==> all[k].summary_hash
                            != all[j as int].summary_hash),
                decreases j - i,
            {
                assert(all[i as int] == rows@[i as int]@);
                if bytes::same_text(rows[i].id.as_str(), rows[j].id.as_str()) {
                    assert(all[i as int].id == all[j as int].id);
                    return None;
                }
                if rows[i].summary_hash.is_some() && same_opt(
                    &rows[i].summary_hash,
                    &rows[j].summary_hash,
                ) {
                    assert(all[i as int].summary_hash == all[j as int].summary_hash);
                    return None;
                }
                i += 1;
            }
            proof {
                let next = all.take(j + 1);
                assert forall|a: int, b: int| 0 <= a < b < next.len() implies #[trigger] next[a].id
                    != #[trigger] next[b].id by {
                    if b < j {
                        assert(all.take(j as int)[a].id != all.take(j as int)[b].id);
                    }
                }
                assert forall|a: int, b: int|
                    0 <= a < b < next.len() && #[trigger] next[a].summary_hash
                        is Some implies next[a].summary_hash != #[trigger] next[b].summary_hash by {
                    if b < j {
                        assert(all.take(j as int)[a].summary_hash
                            != all.take(j as int)[b].summary_hash);
                    }
                }
            }
            j += 1;
        }
        assert(all.take(all.len() as int) =~= all);
        Some(Memories { rows, dims })
    }

    /// The number of rows.
    pub fn count(&self) -> (r: usize)
        ensures
            r == self.rows().len(),
    {
        self.rows.len()
    }

    /// The row at a position.
    pub fn row(&self, i: usize) -> (r: &MemoryRow)
        requires
            i < self.rows().len(),
        ensures
            r@ == self.rows()[i as int],
    {
        &self.rows[i]
    }

    /// The number of components that an embedding has.
    pub fn embedding_dims(&self) -> (r: usize)
        ensures
            r == self.dims(),
    {
        self.dims
    }

    /// The position of the row with this identifier.
    fn find_id(&self, id: &str) -> (r: Option<usize>)
        ensures
            match r {
                Some(i) => i < self.rows@.len() && table::find(self.rows(), has_id(id@)) == Some(
                    i as int,
                ),
                None => table::find(self.rows(), has_id(id@)) is None,
            },
    {
        let mut i: usize = 0;
        while i < self.rows.len()
            invariant
                i <= self.rows@.len(),
                forall|k: int| 0 <= k < i ==> (#[trigger] self.rows()[k]).id != id@,
            decreases self.rows@.len() - i,
        {
            assert(self.rows()[i as int] == self.rows@[i as int]@);
            if bytes::same_text(self.rows[i].id.as_str(), id) {
                proof {
                    table::lemma_found(self.rows(), has_id(id@), i as int);
                }
                return Some(i);
            }
            i += 1;
        }
        proof {
            table::lemma_not_found(self.rows(), has_id(id@));
        }
        None
    }

    /// The position of the row with this fingerprint.
    fn find_hash(&self, hash: &str) -> (r: Option<usize>)
        ensures
            match r {
                Some(i) => i < self.rows@.len() && table::find(self.rows(), has_hash(hash@))
                    == Some(i as int),
                None => table::find(self.rows(), has_hash(hash@)) is None,
            },
    {
        let mut i: usize = 0;
        while i < self.rows.len()
            invariant
                i <= self.rows@.len(),
                forall|k: int|
                    0 <= k < i ==> (#[trigger] self.rows()[k]).summary_hash != Some(hash@),
            decreases self.rows@.len() - i,
        {
            assert(self.rows()[i as int] == self.rows@[i as int]@);
            let same = match &self.rows[i].summary_hash {
                Some(h) => bytes::same_text(h.as_str(), hash),
                None => false,
            };
            if same {
                proof {
                    table::lemma_found(self.rows(), has_hash(hash@), i as int);
                }
                return Some(i);
            }
            i += 1;
        }
        proof {
            table::lemma_not_found(self.rows(), has_hash(hash@));
        }
        None
    }

    /// Stores a memory whose topic and summary were checked.
    ///
    /// A memory of the same content as one in the table gets no row of its own: the row that is
    /// there takes up what is new, and its identifier is returned.
    pub fn store_inner(&mut self, memory: &Memory, now: Timestamp) -> (r: IcmResult<Stored>)
        requires
            old(self).wf(),
        ensures
            final(self).wf(),
            final(self).dims() == old(self).dims(),
            final(self).rows() == rows_after_store(
                old(self).rows(),
                old(self).dims(),
                memory@,
                now@,
            ),
            match store_step(old(self).rows(), old(self).dims(), memory@) {
                StoreStep::Insert => r matches Ok(s) && s.id@ == memory@.id && !s.changed,
                StoreStep::Merge { at } => r matches Ok(s) && s.id@ == old(self).rows()[at].id
                    && s.changed == !absorbs(old(self).rows()[at], memory@),
                StoreStep::Fail { error } => r matches Err(e) && e@ == error,
            },
            is_kept(old(self).rows(), final(self).rows(), old(self).dims(), memory@),
            takes_up(old(self).rows(), old(self).dims(), memory@) ==> time::is_written(now@),
    {
        let row = row::memory_to_row(memory);
        let hash = digest::summary_hash(memory.topic.as_str(), memory.summary.as_str());
        let same = self.find_hash(hash.as_str());
        let taken = self.find_id(memory.id.as_str());
        let ghost rows = self.rows();
        if same.is_none() && taken.is_none() {
            match check_vector(&memory.embedding, self.dims) {
                Ok(()) => {},
                Err(e) => {
                    return Err(e);
                },
            }
            let ghost new = row@;
            self.rows.push(row);
            assert(self.rows() =~= rows.push(new));
            proof {
                lemma_insert(rows, self.dims(), memory@);
                memory::lemma_importance_reads_back(memory.importance);
                assert forall|i: int| 0 <= i < memory@.keywords.len() implies memory@.keywords.contains(
                    #[trigger] memory@.keywords[i],
                ) by {}
                lemma_union_of_members(memory@.keywords, memory@.keywords);
            }
            return Ok(Stored { id: memory.id.clone(), changed: false });
        }
        let at = match same {
            Some(at) => at,
            None => {
                return Err(IcmError::Database("Query returned no rows".to_owned()));
            },
        };
        let ghost old_row = rows[at as int];
        assert(old_row == self.rows@[at as int]@);
        if self.rows[at].keywords.is_none() {
            return Err(
                IcmError::Database(
                    "Invalid column type Null at index: 2, name: keywords".to_owned(),
                ),
            );
        }
        let id = self.rows[at].id.clone();
        let importance = Importance::parse(self.rows[at].importance.as_str());
        let best = memory::max_importance(importance, memory.importance);
        let mut keywords = json::strings_in(&self.rows[at].keywords);
        let keywords_changed = add_missing(&mut keywords, &memory.keywords);
        let excerpt = match &memory.raw_excerpt {
            Some(s) => Some(s.clone()),
            None => text::copy_opt(&self.rows[at].raw_excerpt),
        };
        let excerpt_changed = !same_opt(&excerpt, &self.rows[at].raw_excerpt);
        let changed = best != importance || keywords_changed || excerpt_changed;
        assert(changed == !absorbs(old_row, memory@));
        if changed {
            self.rows[at].importance = best.text();
            self.rows[at].keywords = Some(json::write_strings(&keywords));
            self.rows[at].raw_excerpt = excerpt;
            self.rows[at].updated_at = Some(now.to_rfc3339());
            assert(self.rows() =~= rows.update(at as int, merged(old_row, memory@, now@)));
            proof {
                memory::lemma_importance_reads_back(best);
                lemma_union_again(json::strings_of(old_row.keywords), memory@.keywords);
            }
        } else {
            assert(rows.update(at as int, old_row) =~= rows);
        }
        Ok(Stored { id, changed })
    }
}

/// The table stays in order when a memory gets a row of its own.
proof fn lemma_insert(rows: Seq<MemoryRowV>, dims: nat, m: MemoryV)
    requires
        is_table(rows),
        store_step(rows, dims, m) is Insert,
    ensures
        is_table(rows.push(row::row_of_memory(m))),
{
    table::lemma_find(rows, has_id(m.id));
    table::lemma_find(rows, has_hash(digest::summary_hash_text(m.topic, m.summary)));
}

/// Storing the same content again loses nothing: the importance of the row does not fall, its
/// keywords stay, in their order, before the new ones, and its excerpt is not erased.
pub proof fn lemma_merge_loses_nothing(r: MemoryRowV, m: MemoryV)
    ensures
        memory::rank(merged_importance(r, m)) >= memory::rank(memory::importance_of(r.importance)),
        memory::rank(merged_importance(r, m)) >= memory::rank(m.importance),
        json::strings_of(r.keywords).is_prefix_of(merged_keywords(r, m)),
        forall|i: int|
            0 <= i < m.keywords.len() ==> merged_keywords(r, m).contains(#[trigger] m.keywords[i]),
        r.raw_excerpt is Some ==> merged_excerpt(r, m) is Some,
        m.raw_excerpt is Some ==> merged_excerpt(r, m) == m.raw_excerpt,
{
    lemma_union_again(json::strings_of(r.keywords), m.keywords);
}

/// Storing is idempotent: where a row holds the content of a memory and all that it adds, storing
/// the memory changes nothing and leads to that row. After a memory was stored, its row is one of
/// this kind.
pub proof fn lemma_storing_again_changes_nothing(
    rows: Seq<MemoryRowV>,
    dims: nat,
    at: int,
    m: MemoryV,
    now: (i64, u32),
)
    requires
        is_table(rows),
        0 <= at < rows.len(),
        rows[at].summary_hash == Some(digest::summary_hash_text(m.topic, m.summary)),
        rows[at].keywords is Some,
        absorbs(rows[at], m),
    ensures
        store_step(rows, dims, m) == (StoreStep::Merge { at }),
        rows_after_store(rows, dims, m, now) == rows,
{
    let p = has_hash(digest::summary_hash_text(m.topic, m.summary));
    assert forall|j: int| 0 <= j < at implies !p(#[trigger] rows[j]) by {
        assert(rows[j].summary_hash is Some ==> rows[j].summary_hash != rows[at].summary_hash);
    }
    assert(table::is_first(rows, p, at));
    table::lemma_found(rows, p, at);
    assert(rows.update(at, rows[at]) =~= rows);
}

/// A memory that was removed is gone.
pub proof fn lemma_deleted_memory_is_gone(rows: Seq<MemoryRowV>, id: Seq<char>)
    requires
        is_table(rows),
    ensures
        table::find(rows_after_delete(rows, id), has_id(id)) is None,
{
    let p = has_id(id);
    table::lemma_find(rows, p);
    let out = rows_after_delete(rows, id);
    match table::find(rows, p) {
        Some(at) => {
            let left = rows.remove(at);
            assert forall|j: int| 0 <= j < out.len() implies !p(#[trigger] out[j]) by {
                assert(out[j].id == left[j].id);
                let k = if j < at {
                    j
                } else {
                    j + 1
                };
                assert(left[j] == rows[k]);
                assert(rows[at].id == id);
                if k < at {
                    assert(rows[k].id != rows[at].id);
                } else {
                    assert(rows[at].id != rows[k].id);
                }
            }
            table::lemma_not_found(out, p);
        },
        None => {},
    }
}

/// Every element of either list is in the union, and adding the second once more adds nothing.
pub proof fn lemma_union_again(a: Seq<Seq<char>>, b: Seq<Seq<char>>)
    ensures
        a.is_prefix_of(union(a, b)),
        forall|i: int| 0 <= i < b.len() ==> union(a, b).contains(#[trigger] b[i]),
        union(union(a, b), b) == union(a, b),
    decreases b.len(),
{
    if b.len() == 0 {
        assert(a =~= a.subrange(0, a.len() as int));
    } else {
        let c = b.drop_last();
        lemma_union_again(a, c);
        let u = union(a, c);
        let v = union(a, b);
        assert(a =~= v.subrange(0, a.len() as int));
        if !u.contains(b.last()) {
            assert(v[u.len() as int] == b.last());
        }
        assert forall|i: int| 0 <= i < b.len() implies v.contains(#[trigger] b[i]) by {
            if i < c.len() {
                assert(c[i] == b[i]);
                let k = choose|k: int| 0 <= k < u.len() && u[k] == b[i];
                assert(v[k] == b[i]);
            }
        }
        lemma_union_of_members(v, b);
    }
}

proof fn lemma_union_of_members(a: Seq<Seq<char>>, b: Seq<Seq<char>>)
    requires
        forall|i: int| 0 <= i < b.len() ==> a.contains(#[trigger] b[i]),
    ensures
        union(a, b) == a,
    decreases b.len(),
{
    if b.len() > 0 {
        let c = b.drop_last();
        assert forall|i: int| 0 <= i < c.len() implies a.contains(#[trigger] c[i]) by {
            assert(c[i] == b[i]);
        }
        lemma_union_of_members(a, c);
        assert(b.last() == b[b.len() - 1]);
    }
}

// ---------------------------------------------------------------------------
// Reading one memory, changing it, removing it
// ---------------------------------------------------------------------------

/// The memory with an identifier, as the table gives it at time `now`.
pub open spec fn memory_with_id(
    rows: Seq<MemoryRowV>,
    id: Seq<char>,
    now: (i64, u32),
) -> Option<MemoryV> {
    match table::find(rows, has_id(id)) {
        Some(i) => Some(row::memory_of_row(rows[i], now)),
        None => None,
    }
}

/// The reading of an optional memory.
pub open spec fn opt_memory(m: Option<Memory>) -> Option<MemoryV> {
    match m {
        Some(x) => Some(x@),
        None => None,
    }
}

/// Why a memory cannot take the place of the row with its identifier, where it cannot.
pub open spec fn update_refusal(rows: Seq<MemoryRowV>, dims: nat, m: MemoryV) -> Option<ErrorV> {
    let hash = digest::summary_hash_text(m.topic, m.summary);
    match memory::refusal(m.topic, m.summary) {
        Some(reason) => Some(ErrorV::InvalidInput(reason)),
        None => match table::find(rows, has_id(m.id)) {
            None => Some(ErrorV::NotFound(m.id)),
            Some(at) => if table::find(rows, has_hash(hash)) is Some && table::find(
                rows,
                has_hash(hash),
            ) != Some(at) {
                Some(ErrorV::Database("UNIQUE constraint failed: memories.summary_hash"@))
            } else {
                vector_refusal(m.embedding, dims)
            },
        },
    }
}

/// The row after its memory was changed: the time of its creation stays.
pub open spec fn updated(r: MemoryRowV, m: MemoryV, now: (i64, u32)) -> MemoryRowV {
    MemoryRowV {
        created_at: r.created_at,
        updated_at: Some(time::rfc3339_text(now.0, now.1)),
        ..row::row_of_memory(m)
    }
}

/// The table after a memory was changed.
pub open spec fn rows_after_update(
    rows: Seq<MemoryRowV>,
    dims: nat,
    m: MemoryV,
    now: (i64, u32),
) -> Seq<MemoryRowV> {
    match update_refusal(rows, dims, m) {
        Some(_) => rows,
        None => {
            let at = table::find(rows, has_id(m.id))->0;
            rows.update(at, updated(rows[at], m, now))
        },
    }
}

/// The rows without references to the memories that are gone.
pub open spec fn all_cleaned(rows: Seq<MemoryRowV>, gone: Seq<Seq<char>>) -> Seq<MemoryRowV> {
    rows.map_values(|r: MemoryRowV| relations::cleaned(r, gone))
}

/// The table after a memory was removed.
pub open spec fn rows_after_delete(rows: Seq<MemoryRowV>, id: Seq<char>) -> Seq<MemoryRowV> {
    match table::find(rows, has_id(id)) {
        Some(at) => all_cleaned(rows.remove(at), seq![id]),
        None => rows,
    }
}

/// The table stays in order when references are taken out.
proof fn lemma_cleaned_is_table(rows: Seq<MemoryRowV>, gone: Seq<Seq<char>>)
    requires
        is_table(rows),
    ensures
        is_table(all_cleaned(rows, gone)),
{
}

/// The table stays in order when a row is removed.
proof fn lemma_remove_is_table(rows: Seq<MemoryRowV>, at: int)
    requires
        is_table(rows),
        0 <= at < rows.len(),
    ensures
        is_table(rows.remove(at)),
{
    let out = rows.remove(at);
    let from = |i: int|
        if i < at {
            i
        } else {
            i + 1
        };
    assert forall|i: int| 0 <= i < out.len() implies out[i] == rows[#[trigger] from(i)] by {}
    assert forall|i: int, j: int| 0 <= i < j < out.len() implies #[trigger] out[i].id
        != #[trigger] out[j].id by {
        assert(out[i] == rows[from(i)] && out[j] == rows[from(j)]);
    }
    assert forall|i: int, j: int|
        0 <= i < j < out.len() && #[trigger] out[i].summary_hash is Some implies out[i].summary_hash
        != #[trigger] out[j].summary_hash by {
        assert(out[i] == rows[from(i)] && out[j] == rows[from(j)]);
    }
}

/// The table stays in order when a memory is changed.
proof fn lemma_update_is_table(rows: Seq<MemoryRowV>, dims: nat, m: MemoryV, now: (i64, u32))
    requires
        is_table(rows),
    ensures
        is_table(rows_after_update(rows, dims, m, now)),
{
    if update_refusal(rows, dims, m) is None {
        let at = table::find(rows, has_id(m.id))->0;
        let hash = digest::summary_hash_text(m.topic, m.summary);
        table::lemma_find(rows, has_id(m.id));
        table::lemma_find(rows, has_hash(hash));
        let out = rows_after_update(rows, dims, m, now);
        assert forall|i: int| 0 <= i < rows.len() && i != at implies #[trigger] rows[i].summary_hash
            != Some(hash) by {
            if rows[i].summary_hash == Some(hash) {
                let first = table::find(rows, has_hash(hash));
                if first is Some {
                    assert(rows[at].summary_hash == Some(hash));
                } else {
                    assert(!has_hash(hash)(rows[i]));
                }
            }
        }
        assert(out[at].id == rows[at].id);
    }
}

impl Memories {
    /// The memory with this identifier.
    pub fn get(&self, id: &str, now: Timestamp) -> (r: Option<Memory>)
        ensures
            opt_memory(r) == memory_with_id(self.rows(), id@, now@),
    {
        match self.find_id(id) {
            Some(i) => {
                assert(self.rows()[i as int] == self.rows@[i as int]@);
                Some(row::row_to_memory(&self.rows[i], now))
            },
            None => None,
        }
    }

    /// Puts a memory in the place of the one with its identifier.
    pub fn update(&mut self, memory: &Memory, now: Timestamp) -> (r: IcmResult<()>)
        requires
            old(self).wf(),
        ensures
            final(self).wf(),
            final(self).dims() == old(self).dims(),
            final(self).rows() == rows_after_update(
                old(self).rows(),
                old(self).dims(),
                memory@,
                now@,
            ),
            match update_refusal(old(self).rows(), old(self).dims(), memory@) {
                Some(error) => r matches Err(e) && e@ == error,
                None => r is Ok && time::is_written(now@) && forall|i: int|
                    0 <= i < final(self).rows().len() && (#[trigger] final(self).rows()[i]).id
                        == memory@.id ==> row::lists_read_back(final(self).rows()[i], memory@),
            },
    {
        match memory::validate_fields(memory.topic.as_str(), memory.summary.as_str()) {
            Ok(()) => {},
            Err(e) => {
                return Err(e);
            },
        }
        let at = match self.find_id(memory.id.as_str()) {
            Some(at) => at,
            None => {
                return Err(IcmError::NotFound(memory.id.clone()));
            },
        };
        let hash = digest::summary_hash(memory.topic.as_str(), memory.summary.as_str());
        match self.find_hash(hash.as_str()) {
            Some(other) => {
                if other != at {
                    return Err(
                        IcmError::Database(
                            "UNIQUE constraint failed: memories.summary_hash".to_owned(),
                        ),
                    );
                }
            },
            None => {},
        }
        match check_vector(&memory.embedding, self.dims) {
            Ok(()) => {},
            Err(e) => {
                return Err(e);
            },
        }
        let ghost rows = self.rows();
        proof {
            lemma_update_is_table(rows, self.dims(), memory@, now@);
        }
        let mut row = row::memory_to_row(memory);
        row.created_at = self.rows[at].created_at.clone();
        row.updated_at = Some(now.to_rfc3339());
        assert(rows[at as int] == self.rows@[at as int]@);
        assert(row@ == updated(rows[at as int], memory@, now@));
        self.rows.set(at, row);
        assert(self.rows() =~= rows_after_update(rows, self.dims(), memory@, now@));
        proof {
            table::lemma_find(rows, has_id(memory@.id));
            assert forall|i: int| 0 <= i < rows.len() && (#[trigger] self.rows()[i]).id
                == memory@.id implies i == at by {
                assert(self.rows()[at as int].id == memory@.id);
            }
        }
        Ok(())
    }

    /// Takes the references to the memories that are gone out of every row.
    fn clean_all(&mut self, gone: &Vec<String>)
        ensures
            final(self).dims() == old(self).dims(),
            final(self).rows() == all_cleaned(old(self).rows(), text::texts(gone@)),
            forall|i: int|
                0 <= i < final(self).rows().len() ==> relations::refers_to_none(
                    #[trigger] final(self).rows()[i],
                    text::texts(gone@),
                ),
    {
        let ghost rows = self.rows();
        let ghost goal = all_cleaned(rows, text::texts(gone@));
        let mut i: usize = 0;
        while i < self.rows.len()
            invariant
                i <= self.rows@.len(),
                self.dims == old(self).dims,
                rows.len() == self.rows@.len(),
                goal == all_cleaned(rows, text::texts(gone@)),
                forall|k: int| 0 <= k < i ==> #[trigger] self.rows()[k] == goal[k],
                forall|k: int|
                    0 <= k < i ==> relations::refers_to_none(
                        #[trigger] self.rows()[k],
                        text::texts(gone@),
                    ),
                forall|k: int| i <= k < rows.len() ==> #[trigger] self.rows()[k] == rows[k],
            decreases self.rows@.len() - i,
        {
            let ghost before = self.rows();
            assert(before[i as int] == self.rows@[i as int]@);
            relations::clean_row(&mut self.rows[i], gone);
            assert(self.rows() =~= before.update(i as int, goal[i as int]));
            i += 1;
        }
        assert(self.rows() =~= goal);
    }

    /// Removes the memory with this identifier, and every reference to it.
    pub fn delete(&mut self, id: &str) -> (r: IcmResult<()>)
        requires
            old(self).wf(),
        ensures
            final(self).wf(),
            final(self).dims() == old(self).dims(),
            final(self).rows() == rows_after_delete(old(self).rows(), id@),
            match table::find(old(self).rows(), has_id(id@)) {
                Some(_) => {
                    &&& r is Ok
                    &&& forall|i: int|
                        0 <= i < final(self).rows().len() ==> relations::refers_to_none(
                            #[trigger] final(self).rows()[i],
                            seq![id@],
                        )
                },
                None => r matches Err(e) && e@ == ErrorV::NotFound(id@),
            },
    {
        let at = match self.find_id(id) {
            Some(at) => at,
            None => {
                return Err(IcmError::NotFound(id.to_owned()));
            },
        };
        let ghost rows = self.rows();
        proof {
            lemma_remove_is_table(rows, at as int);
            lemma_cleaned_is_table(rows.remove(at as int), seq![id@]);
        }
        let _ = self.rows.remove(at);
        assert(self.rows() =~= rows.remove(at as int));
        let mut gone: Vec<String> = Vec::new();
        gone.push(id.to_owned());
        assert(text::texts(gone@) =~= seq![id@]);
        self.clean_all(&gone);
        Ok(())
    }
}

// ---------------------------------------------------------------------------
// Access, pruning, consolidation
// ---------------------------------------------------------------------------

/// The row after its memory was accessed.
pub open spec fn accessed(r: MemoryRowV, now: (i64, u32)) -> MemoryRowV {
    MemoryRowV {
        access_count: (r.access_count + 1) as u32,
        last_accessed: time::rfc3339_text(now.0, now.1),
        ..r
    }
}

/// The table after a memory was accessed: nothing changes where there is no such memory.
pub open spec fn rows_after_access(
    rows: Seq<MemoryRowV>,
    id: Seq<char>,
    now: (i64, u32),
) -> Seq<MemoryRowV> {
    match table::find(rows, has_id(id)) {
        Some(at) => if rows[at].access_count < u32::MAX {
            rows.update(at, accessed(rows[at], now))
        } else {
            rows
        },
        None => rows,
    }
}

/// The table after several memories were accessed, one after the other.
pub open spec fn rows_after_accesses(
    rows: Seq<MemoryRowV>,
    ids: Seq<Seq<char>>,
    now: (i64, u32),
) -> Seq<MemoryRowV>
    decreases ids.len(),
{
    if ids.len() == 0 {
        rows
    } else {
        rows_after_access(rows_after_accesses(rows, ids.drop_last(), now), ids.last(), now)
    }
}

/// Which memories a sweep removes: those of a topic, where one is given, and lighter than a
/// weight, where one is given. A critical memory is never among them.
pub open spec fn is_swept(
    r: MemoryRowV,
    topic: Option<Seq<char>>,
    below: Option<u32>,
) -> bool {
    &&& r.importance != memory::importance_text(Importance::Critical)
    &&& topic matches Some(t) ==> r.topic == t
    &&& below matches Some(w) ==> queries::weight_rank(r.weight) < queries::weight_rank(w)
}

/// The row stays after a sweep.
pub open spec fn stays(topic: Option<Seq<char>>, below: Option<u32>) -> spec_fn(MemoryRowV) -> bool {
    |r: MemoryRowV| !is_swept(r, topic, below)
}

/// The row goes in a sweep.
pub open spec fn goes(topic: Option<Seq<char>>, below: Option<u32>) -> spec_fn(MemoryRowV) -> bool {
    |r: MemoryRowV| is_swept(r, topic, below)
}

/// The identifiers of the rows.
pub open spec fn ids_of(rows: Seq<MemoryRowV>) -> Seq<Seq<char>> {
    rows.map_values(|r: MemoryRowV| r.id)
}

/// The table after the ordinary memories of a topic were taken out, for one that stands for them.
pub open spec fn rows_without_topic(rows: Seq<MemoryRowV>, topic: Seq<char>) -> Seq<MemoryRowV> {
    all_cleaned(
        rows.filter(stays(Some(topic), None)),
        ids_of(rows.filter(goes(Some(topic), None))),
    )
}

/// A sweep leaves the table in order.
proof fn lemma_filter_is_table(rows: Seq<MemoryRowV>, p: spec_fn(MemoryRowV) -> bool)
    requires
        is_table(rows),
    ensures
        is_table(rows.filter(p)),
{
    let at = table::filter_positions(rows, p);
    let out = rows.filter(p);
    assert forall|i: int, j: int| 0 <= i < j < out.len() implies #[trigger] out[i].id
        != #[trigger] out[j].id by {
        assert(at[i] < at[j]);
        assert(out[i] == rows[at[i]] && out[j] == rows[at[j]]);
    }
    assert forall|i: int, j: int|
        0 <= i < j < out.len() && #[trigger] out[i].summary_hash is Some implies out[i].summary_hash
        != #[trigger] out[j].summary_hash by {
        assert(at[i] < at[j]);
        assert(out[i] == rows[at[i]] && out[j] == rows[at[j]]);
    }
}

fn is_swept_row(row: &MemoryRow, topic: Option<&str>, below: Option<u32>) -> (r: bool)
    ensures
        r == is_swept(
            row@,
            text::opt_slice(topic),
            below,
        ),
{
    if bytes::same_text(row.importance.as_str(), "critical") {
        return false;
    }
    let in_topic = match topic {
        Some(t) => bytes::same_text(row.topic.as_str(), t),
        None => true,
    };
    let light = match below {
        Some(w) => queries::rank_of_weight(row.weight) < queries::rank_of_weight(w),
        None => true,
    };
    in_topic && light
}

impl Memories {
    /// Notes that a memory was accessed. Nothing happens where there is no such memory, or where
    /// the count can go no higher.
    pub fn update_access(&mut self, id: &str, now: Timestamp)
        requires
            old(self).wf(),
        ensures
            final(self).wf(),
            final(self).dims() == old(self).dims(),
            final(self).rows() == rows_after_access(old(self).rows(), id@, now@),
            final(self).rows() != old(self).rows() ==> time::is_written(now@),
    {
        let ghost rows = self.rows();
        match self.find_id(id) {
            Some(at) => {
                assert(rows[at as int] == self.rows@[at as int]@);
                let n: u32 = self.rows[at].access_count;
                if n < u32::MAX {
                    self.rows[at].access_count = n + 1;
                    self.rows[at].last_accessed = now.to_rfc3339();
                    assert(self.rows() =~= rows.update(at as int, accessed(rows[at as int], now@)));
                }
            },
            None => {},
        }
    }

    /// Notes that several memories were accessed.
    pub fn batch_update_access(&mut self, ids: &[&str], now: Timestamp)
        requires
            old(self).wf(),
        ensures
            final(self).wf(),
            final(self).dims() == old(self).dims(),
            final(self).rows() == rows_after_accesses(old(self).rows(), text::slices(ids@), now@),
            final(self).rows() != old(self).rows() ==> time::is_written(now@),
    {
        let ghost rows = self.rows();
        let ghost all = text::slices(ids@);
        let mut i: usize = 0;
        assert(all.take(0) =~= seq![]);
        while i < ids.len()
            invariant
                i <= ids@.len(),
                all == text::slices(ids@),
                self.wf(),
                self.dims() == old(self).dims(),
                self.rows() == rows_after_accesses(rows, all.take(i as int), now@),
                self.rows() != rows ==> time::is_written(now@),
            decreases ids@.len() - i,
        {
            assert(all.take(i + 1).drop_last() =~= all.take(i as int));
            assert(all.take(i + 1).last() == ids@[i as int]@);
            self.update_access(ids[i], now);
            i += 1;
        }
        assert(all.take(all.len() as int) =~= all);
    }

    /// Removes memories, and returns their identifiers.
    fn sweep(&mut self, topic: Option<&str>, below: Option<u32>) -> (gone: Vec<String>)
        requires
            old(self).wf(),
        ensures
            final(self).wf(),
            final(self).dims() == old(self).dims(),
            ({
                let t = text::opt_slice(topic);
                &&& final(self).rows() == old(self).rows().filter(stays(t, below))
                &&& text::texts(gone@) == ids_of(old(self).rows().filter(goes(t, below)))
            }),
    {
        let ghost t = text::opt_slice(topic);
        let ghost rows = self.rows();
        let ghost keep = stays(t, below);
        let mut marks: Vec<bool> = Vec::new();
        while marks.len() < self.rows.len()
            invariant
                rows == self.rows(),
                rows.len() == self.rows@.len(),
                t == text::opt_slice(topic),
                keep == stays(t, below),
                marks@.len() <= rows.len(),
                forall|i: int| 0 <= i < marks@.len() ==> #[trigger] marks@[i] == !keep(rows[i]),
            decreases rows.len() - marks@.len(),
        {
            assert(rows[marks@.len() as int] == self.rows@[marks@.len() as int]@);
            marks.push(is_swept_row(&self.rows[marks.len()], topic, below));
        }
        let ghost f = |r: MemoryRow| r@;
        assert(self.rows@.map_values(f) =~= rows);
        let gone = table::take_out::<MemoryRow, MemoryRowV>(&mut self.rows, &marks, Ghost(f), Ghost(keep));
        proof {
            assert(self.rows() =~= self.rows@.map_values(f));
            assert(table::not(keep) =~= goes(t, below));
            assert(table::views(gone@) =~= gone@.map_values(f));
            lemma_filter_is_table(rows, keep);
        }
        let mut ids: Vec<String> = Vec::new();
        let ghost all = ids_of(table::views(gone@));
        assert(text::texts(ids@) =~= all.take(0));
        while ids.len() < gone.len()
            invariant
                all == ids_of(table::views(gone@)),
                ids@.len() <= gone@.len(),
                text::texts(ids@) == all.take(ids@.len() as int),
            decreases gone@.len() - ids@.len(),
        {
            let ghost before = ids@;
            let id = gone[ids.len()].id.clone();
            ids.push(id);
            assert(text::texts(ids@) =~= text::texts(before).push(id@));
            assert(all.take((before.len() + 1) as int) =~= all.take(before.len() as int).push(id@));
        }
        assert(all.take(all.len() as int) =~= all);
        ids
    }

    /// Removes the memories that are lighter than `threshold`, except critical ones, and returns
    /// how many there were.
    pub fn prune(&mut self, threshold: u32) -> (r: usize)
        requires
            old(self).wf(),
        ensures
            final(self).wf(),
            final(self).dims() == old(self).dims(),
            final(self).rows() == old(self).rows().filter(stays(None, Some(threshold))),
            r == old(self).rows().filter(goes(None, Some(threshold))).len(),
    {
        let gone = self.sweep(None, Some(threshold));
        assert(text::texts(gone@).len() == gone@.len());
        gone.len()
    }

    /// A copy of the table.
    fn copy(&self) -> (r: Memories)
        ensures
            r.rows() == self.rows(),
            r.dims() == self.dims(),
    {
        let mut rows: Vec<MemoryRow> = Vec::new();
        let mut i: usize = 0;
        assert(table::views(rows@) =~= self.rows().take(0));
        while i < self.rows.len()
            invariant
                i <= self.rows@.len(),
                table::views(rows@) == self.rows().take(i as int),
            decreases self.rows@.len() - i,
        {
            let row = self.rows[i].clone();
            let ghost before = table::views(rows@);
            let ghost reading = row@;
            rows.push(row);
            assert(table::views(rows@) =~= before.push(reading));
            assert(self.rows().take(i + 1) =~= self.rows().take(i as int).push(
                self.rows()[i as int],
            ));
            i += 1;
        }
        assert(self.rows().take(i as int) =~= self.rows());
        Memories { rows, dims: self.dims }
    }

    /// Puts one memory in the place of all memories of a topic, except critical ones. Where it
    /// cannot be stored, nothing changes.
    pub fn consolidate_topic(&mut self, topic: &str, consolidated: Memory, now: Timestamp) -> (r:
        IcmResult<()>)
        requires
            old(self).wf(),
        ensures
            final(self).wf(),
            final(self).dims() == old(self).dims(),
            match memory::refusal(
                text::trimmed(consolidated@.topic),
                consolidated@.summary,
            ) {
                Some(reason) => {
                    &&& r matches Err(e) && e@ == ErrorV::InvalidInput(reason)
                    &&& final(self).rows() == old(self).rows()
                },
                None => {
                    let m = memory::normalized(consolidated@);
                    let left = rows_without_topic(old(self).rows(), topic@);
                    match store_step(left, old(self).dims(), m) {
                        StoreStep::Fail { error } => {
                            &&& r matches Err(e) && e@ == error
                            &&& final(self).rows() == old(self).rows()
                        },
                        _ => {
                            &&& r is Ok
                            &&& final(self).rows() == rows_after_store(
                                left,
                                old(self).dims(),
                                m,
                                now@,
                            )
                            &&& forall|i: int|
                                0 <= i < left.len() ==> relations::refers_to_none(
                                    #[trigger] final(self).rows()[i],
                                    ids_of(old(self).rows().filter(goes(Some(topic@), None))),
                                )
                            &&& is_kept(left, final(self).rows(), old(self).dims(), m)
                            &&& takes_up(left, old(self).dims(), m) ==> time::is_written(now@)
                        },
                    }
                },
            },
    {
        let memory = match memory::validate_and_normalize(consolidated) {
            Ok(m) => m,
            Err(e) => {
                return Err(e);
            },
        };
        let ghost rows = self.rows();
        let mut next = self.copy();
        let gone = next.sweep(Some(topic), None);
        proof {
            lemma_cleaned_is_table(next.rows(), text::texts(gone@));
        }
        next.clean_all(&gone);
        let ghost left = next.rows();
        match next.store_inner(&memory, now) {
            Ok(_) => {
                proof {
                    let hash = digest::summary_hash_text(memory@.topic, memory@.summary);
                    table::lemma_find(left, has_hash(hash));
                    assert forall|i: int| 0 <= i < left.len() implies relations::refers_to_none(
                        #[trigger] next.rows()[i],
                        text::texts(gone@),
                    ) by {
                        assert(relations::refers_to_none(left[i], text::texts(gone@)));
                    }
                }
                self.rows = next.rows;
                Ok(())
            },
            Err(e) => Err(e),
        }
    }
}

/// Accesses change the rows of the memories that were accessed, and of those only the count and
/// the time.
pub proof fn lemma_accesses_change_only_theirs(
    rows: Seq<MemoryRowV>,
    ids: Seq<Seq<char>>,
    now: (i64, u32),
)
    ensures
        ({
            let out = rows_after_accesses(rows, ids, now);
            &&& out.len() == rows.len()
            &&& forall|k: int|
                0 <= k < rows.len() ==> #[trigger] out[k] == (MemoryRowV {
                    access_count: out[k].access_count,
                    last_accessed: out[k].last_accessed,
                    ..rows[k]
                })
            &&& forall|k: int|
                0 <= k < rows.len() && !ids.contains(rows[k].id) ==> #[trigger] out[k] == rows[k]
        }),
    decreases ids.len(),
{
    if ids.len() > 0 {
        let front = ids.drop_last();
        lemma_accesses_change_only_theirs(rows, front, now);
        let mid = rows_after_accesses(rows, front, now);
        let out = rows_after_accesses(rows, ids, now);
        table::lemma_find(mid, has_id(ids.last()));
        assert forall|k: int| 0 <= k < rows.len() implies #[trigger] out[k] == (MemoryRowV {
            access_count: out[k].access_count,
            last_accessed: out[k].last_accessed,
            ..rows[k]
        }) by {
            assert(mid[k].id == rows[k].id);
        }
        assert forall|k: int|
            0 <= k < rows.len() && !ids.contains(rows[k].id) implies #[trigger] out[k] == rows[k] by {
            assert(mid[k].id == rows[k].id);
            if front.contains(rows[k].id) {
                let j = choose|j: int| 0 <= j < front.len() && front[j] == rows[k].id;
                assert(ids[j] == rows[k].id);
            }
            assert(ids[ids.len() - 1] == ids.last());
        }
    }
}

/// A sweep takes no critical memory, whatever it is told to remove.
pub proof fn lemma_critical_memory_stays(
    rows: Seq<MemoryRowV>,
    i: int,
    topic: Option<Seq<char>>,
    below: Option<u32>,
)
    requires
        0 <= i < rows.len(),
        rows[i].importance == memory::importance_text(Importance::Critical),
    ensures
        rows.filter(stays(topic, below)).contains(rows[i]),
{
    table::lemma_filter_members(rows, stays(topic, below), rows[i]);
}

// ---------------------------------------------------------------------------
// What becomes of memories
// ---------------------------------------------------------------------------

/// Content that no row has, under an identifier that no row has, gets a row of its own behind the
/// others; content that a row has leads to that row.
pub proof fn lemma_new_content_gets_a_row(
    rows: Seq<MemoryRowV>,
    dims: nat,
    m: MemoryV,
    now: (i64, u32),
)
    requires
        m.embedding matches Some(e) ==> e.len() == dims && dims > 0,
    ensures
        (forall|i: int|
            0 <= i < rows.len() ==> (#[trigger] rows[i]).id != m.id && rows[i].summary_hash != Some(
                digest::summary_hash_text(m.topic, m.summary),
            )) ==> rows_after_store(rows, dims, m, now) == rows.push(row::row_of_memory(m)),
        forall|i: int|
            is_table(rows) && 0 <= i < rows.len() && (#[trigger] rows[i]).summary_hash == Some(
                digest::summary_hash_text(m.topic, m.summary),
            ) && rows[i].keywords is Some ==> rows_after_store(rows, dims, m, now).len()
                == rows.len() && rows_after_store(rows, dims, m, now)[i].id == rows[i].id
                && forall|k: int|
                0 <= k < rows.len() && k != i ==> #[trigger] rows_after_store(
                    rows,
                    dims,
                    m,
                    now,
                )[k] == rows[k],
{
    let p = has_hash(digest::summary_hash_text(m.topic, m.summary));
    table::lemma_find(rows, p);
    table::lemma_find(rows, has_id(m.id));
    assert forall|i: int|
        is_table(rows) && 0 <= i < rows.len() && (#[trigger] rows[i]).summary_hash == Some(
            digest::summary_hash_text(m.topic, m.summary),
        ) && rows[i].keywords is Some implies rows_after_store(rows, dims, m, now).len()
        == rows.len() && rows_after_store(rows, dims, m, now)[i].id == rows[i].id && forall|k: int|
        0 <= k < rows.len() && k != i ==> #[trigger] rows_after_store(rows, dims, m, now)[k]
            == rows[k] by {
        assert(p(rows[i]));
        let at = table::find(rows, p)->0;
        if at < i {
            assert(rows[at].summary_hash != rows[i].summary_hash);
        } else if i < at {
            assert(rows[i].summary_hash != rows[at].summary_hash);
        }
    }
}

/// The union keeps the first list as it is and adds, in order, what of the second is not yet
/// there.
pub proof fn lemma_union_step(a: Seq<Seq<char>>, b: Seq<Seq<char>>, x: Seq<char>)
    ensures
        union(a, Seq::<Seq<char>>::empty()) == a,
        union(a, b).contains(x) ==> union(a, b.push(x)) == union(a, b),
        !union(a, b).contains(x) ==> union(a, b.push(x)) == union(a, b).push(x),
{
    assert(b.push(x).drop_last() =~= b);
}

/// Storing known content again raises the importance where the new one is higher, adds keywords
/// that are new, and takes the new excerpt where there is one; the time of the change is noted
/// exactly if something changed, and nothing else changes.
pub proof fn lemma_merge_changes_only_what_is_new(r: MemoryRowV, m: MemoryV, now: (i64, u32))
    ensures
        ({
            let out = merged(r, m, now);
            let had = memory::importance_of(r.importance);
            let words = json::strings_of(r.keywords);
            let same_importance = memory::higher(had, m.importance) == had;
            let same_keywords = forall|i: int|
                0 <= i < m.keywords.len() ==> words.contains(#[trigger] m.keywords[i]);
            let same_excerpt = m.raw_excerpt is None || m.raw_excerpt == r.raw_excerpt;
            &&& out == (MemoryRowV {
                importance: out.importance,
                keywords: out.keywords,
                raw_excerpt: out.raw_excerpt,
                updated_at: out.updated_at,
                ..r
            })
            &&& same_importance && same_keywords && same_excerpt ==> out == r
            &&& !(same_importance && same_keywords && same_excerpt) ==> {
                &&& out.importance == memory::importance_text(memory::higher(had, m.importance))
                &&& out.keywords == Some(json::json_text(union(words, m.keywords)))
                &&& out.raw_excerpt == if m.raw_excerpt is Some {
                    m.raw_excerpt
                } else {
                    r.raw_excerpt
                }
                &&& out.updated_at == Some(time::rfc3339_text(now.0, now.1))
            }
        }),
{
    let words = json::strings_of(r.keywords);
    lemma_union_again(words, m.keywords);
    if forall|i: int| 0 <= i < m.keywords.len() ==> words.contains(#[trigger] m.keywords[i]) {
        lemma_union_of_members(words, m.keywords);
    }
}

/// Changing a memory sets every column to the new memory's, except that the time of its making
/// stays and the time of the change is now; no other row changes.
pub proof fn lemma_update_replaces_all_but_the_making(
    rows: Seq<MemoryRowV>,
    dims: nat,
    m: MemoryV,
    now: (i64, u32),
    k: int,
)
    requires
        is_table(rows),
        update_refusal(rows, dims, m) is None,
        0 <= k < rows.len(),
    ensures
        rows_after_update(rows, dims, m, now).len() == rows.len(),
        rows[k].id != m.id ==> rows_after_update(rows, dims, m, now)[k] == rows[k],
        rows[k].id == m.id ==> rows_after_update(rows, dims, m, now)[k] == (MemoryRowV {
            created_at: rows[k].created_at,
            updated_at: Some(time::rfc3339_text(now.0, now.1)),
            ..row::row_of_memory(m)
        }),
{
    table::lemma_find(rows, has_id(m.id));
    let at = table::find(rows, has_id(m.id))->0;
    if rows[k].id == m.id && k != at {
        assert(at < k);
        assert(rows[at].id != rows[k].id);
    }
}

/// A memory cannot be changed where it breaks a rule on its texts, where there is none with its
/// identifier, where another has the new content, or where its embedding has the wrong size; it
/// can in all other cases.
pub proof fn lemma_when_a_change_is_refused(rows: Seq<MemoryRowV>, dims: nat, m: MemoryV)
    requires
        is_table(rows),
    ensures
        ({
            let r = update_refusal(rows, dims, m);
            let valid = memory::refusal(m.topic, m.summary) is None;
            let known = exists|i: int| 0 <= i < rows.len() && (#[trigger] rows[i]).id == m.id;
            let taken = exists|i: int|
                0 <= i < rows.len() && (#[trigger] rows[i]).id != m.id && rows[i].summary_hash
                    == Some(digest::summary_hash_text(m.topic, m.summary));
            let fits = m.embedding matches Some(e) ==> 0 < e.len() == dims;
            &&& !valid ==> (r matches Some(e) && e is InvalidInput)
            &&& valid && !known ==> r == Some(ErrorV::NotFound(m.id))
            &&& valid && known && taken ==> (r matches Some(e) && e is Database)
            &&& valid && known && !taken && !fits ==> (r matches Some(e) && e is Database)
            &&& valid && known && !taken && fits ==> r is None
        }),
{
    let p = has_id(m.id);
    let hash = digest::summary_hash_text(m.topic, m.summary);
    let q = has_hash(hash);
    table::lemma_find(rows, p);
    table::lemma_find(rows, q);
    let known = exists|i: int| 0 <= i < rows.len() && (#[trigger] rows[i]).id == m.id;
    if known {
        let i = choose|i: int| 0 <= i < rows.len() && (#[trigger] rows[i]).id == m.id;
        assert(p(rows[i]));
        let at = table::find(rows, p)->0;
        match table::find(rows, q) {
            Some(j) => {
                if j < at {
                    assert(rows[j].id != rows[at].id);
                } else if j > at {
                    assert(rows[at].id != rows[j].id);
                }
                assert forall|k: int|
                    0 <= k < rows.len() && (#[trigger] rows[k]).id != m.id
                        && rows[k].summary_hash == Some(hash) implies j != at by {
                    if j < k {
                        assert(rows[j].summary_hash != rows[k].summary_hash);
                    } else if k < j {
                        assert(!q(rows[k]));
                    }
                }
            },
            None => {
                assert forall|k: int| 0 <= k < rows.len() implies (#[trigger] rows[k]).summary_hash
                    != Some(hash) by {
                    assert(!q(rows[k]));
                }
            },
        }
    }
}

/// An embedding is kept exactly if it has the size of the others and at least one component.
pub proof fn lemma_vectors_of_one_size(e: Seq<u32>, dims: nat)
    ensures
        vector_refusal(None, dims) is None,
        vector_refusal(Some(e), dims) is None == (e.len() == dims && dims > 0),
        vector_refusal(Some(e), dims) matches Some(x) ==> x is Database,
{
}

/// Removing a memory takes out its row and no other: the rows before and behind it stay, in their
/// order, without references to it.
pub proof fn lemma_delete_takes_one_row(rows: Seq<MemoryRowV>, at: int, k: int)
    requires
        is_table(rows),
        0 <= at < rows.len(),
        0 <= k < rows.len(),
    ensures
        ({
            let out = rows_after_delete(rows, rows[at].id);
            let gone = seq![rows[at].id];
            &&& out.len() == rows.len() - 1
            &&& k < at ==> out[k] == relations::cleaned(rows[k], gone)
            &&& k > at ==> out[k - 1] == relations::cleaned(rows[k], gone)
        }),
{
    let p = has_id(rows[at].id);
    assert forall|j: int| 0 <= j < at implies !p(#[trigger] rows[j]) by {
        assert(rows[j].id != rows[at].id);
    }
    assert(table::is_first(rows, p, at));
    table::lemma_found(rows, p, at);
}

/// An access counts one more and notes the time; nothing else in the row changes, and no other
/// row.
pub proof fn lemma_access_counts_one_more(
    rows: Seq<MemoryRowV>,
    at: int,
    now: (i64, u32),
    k: int,
)
    requires
        is_table(rows),
        0 <= at < rows.len(),
        rows[at].access_count < u32::MAX,
        0 <= k < rows.len(),
    ensures
        ({
            let out = rows_after_access(rows, rows[at].id, now);
            &&& out.len() == rows.len()
            &&& k != at ==> out[k] == rows[k]
            &&& out[at].access_count == rows[at].access_count + 1
            &&& out[at].last_accessed == time::rfc3339_text(now.0, now.1)
            &&& out[at] == (MemoryRowV {
                access_count: out[at].access_count,
                last_accessed: out[at].last_accessed,
                ..rows[at]
            })
        }),
{
    let p = has_id(rows[at].id);
    assert forall|j: int| 0 <= j < at implies !p(#[trigger] rows[j]) by {
        assert(rows[j].id != rows[at].id);
    }
    assert(table::is_first(rows, p, at));
    table::lemma_found(rows, p, at);
}

/// Accesses are counted one by one: `n` of them add `n`.
pub proof fn lemma_accesses_are_counted(
    rows: Seq<MemoryRowV>,
    at: int,
    n: nat,
    now: (i64, u32),
)
    requires
        is_table(rows),
        0 <= at < rows.len(),
        rows[at].access_count + n <= u32::MAX,
    ensures
        rows_after_accesses(rows, Seq::new(n, |i: int| rows[at].id), now).len() == rows.len(),
        rows_after_accesses(rows, Seq::new(n, |i: int| rows[at].id), now)[at].access_count
            == rows[at].access_count + n,
    decreases n,
{
    let id = rows[at].id;
    let ids = Seq::new(n, |i: int| id);
    assert(Seq::new(n, |i: int| rows[at].id) =~= ids);
    if n > 0 {
        let m = (n - 1) as nat;
        lemma_accesses_are_counted(rows, at, m, now);
        assert(ids.drop_last() =~= Seq::new(m, |i: int| rows[at].id));
        let mid = rows_after_accesses(rows, ids.drop_last(), now);
        lemma_accesses_change_only_theirs(rows, ids.drop_last(), now);
        assert forall|i: int| 0 <= i < rows.len() implies (#[trigger] mid[i]).id == rows[i].id
            && mid[i].summary_hash == rows[i].summary_hash by {}
        assert(is_table(mid)) by {
            assert forall|i: int, j: int| 0 <= i < j < mid.len() implies #[trigger] mid[i].id
                != #[trigger] mid[j].id by {
                assert(rows[i].id != rows[j].id);
            }
            assert forall|i: int, j: int|
                0 <= i < j < mid.len() && #[trigger] mid[i].summary_hash
                    is Some implies mid[i].summary_hash != #[trigger] mid[j].summary_hash by {
                assert(rows[i].summary_hash != rows[j].summary_hash);
            }
        }
        lemma_access_counts_one_more(mid, at, now, at);
    }
}

/// Pruning takes the memories that are not critical and lighter than the threshold, by the bits of
/// positive weights; all others stay.
pub proof fn lemma_pruning_takes_the_light(rows: Seq<MemoryRowV>, threshold: u32, r: MemoryRowV)
    requires
        rows.contains(r),
        r.weight < 0x8000_0000,
        threshold < 0x8000_0000,
    ensures
        rows.filter(stays(None, Some(threshold))).contains(r) == (r.importance == "critical"@
            || r.weight >= threshold),
        rows.filter(goes(None, Some(threshold))).contains(r) == (r.importance != "critical"@
            && r.weight < threshold),
{
    table::lemma_filter_members(rows, stays(None, Some(threshold)), r);
    table::lemma_filter_members(rows, goes(None, Some(threshold)), r);
    queries::lemma_weight_rank_orders_weights(r.weight, threshold);
    queries::lemma_weight_rank_orders_weights(threshold, r.weight);
}

/// Putting one memory in the place of a topic takes the memories of that topic that are not
/// critical; all others stay.
pub proof fn lemma_consolidation_takes_the_topic(
    rows: Seq<MemoryRowV>,
    topic: Seq<char>,
    r: MemoryRowV,
)
    requires
        rows.contains(r),
    ensures
        rows.filter(stays(Some(topic), None)).contains(r) == (r.importance == "critical"@ || r.topic
            != topic),
        rows.filter(goes(Some(topic), None)).contains(r) == (r.importance != "critical"@ && r.topic
            == topic),
        rows_without_topic(rows, topic).len() == rows.filter(stays(Some(topic), None)).len(),
{
    table::lemma_filter_members(rows, stays(Some(topic), None), r);
    table::lemma_filter_members(rows, goes(Some(topic), None), r);
}

/// What is left of the table beside a topic is cleaned of references to what was taken out.
pub proof fn lemma_consolidation_cleans(rows: Seq<MemoryRowV>, topic: Seq<char>, k: int)
    requires
        0 <= k < rows.filter(stays(Some(topic), None)).len(),
    ensures
        rows_without_topic(rows, topic)[k] == relations::cleaned(
            rows.filter(stays(Some(topic), None))[k],
            rows.filter(goes(Some(topic), None)).map_values(|r: MemoryRowV| r.id),
        ),
{
    let gone = rows.filter(goes(Some(topic), None));
    assert(ids_of(gone) =~= gone.map_values(|r: MemoryRowV| r.id));
}

/// Reading by identifier gives the memory of the one row that has it, and nothing where none does.
pub proof fn lemma_memory_by_identifier(
    rows: Seq<MemoryRowV>,
    id: Seq<char>,
    now: (i64, u32),
    k: int,
    m: Memory,
)
    requires
        is_table(rows),
    ensures
        0 <= k < rows.len() && rows[k].id == id ==> memory_with_id(rows, id, now) == Some(
            row::memory_of_row(rows[k], now),
        ),
        (forall|i: int| 0 <= i < rows.len() ==> (#[trigger] rows[i]).id != id) ==> memory_with_id(
            rows,
            id,
            now,
        ) is None,
        opt_memory(Some(m)) == Some(m@),
        opt_memory(None) is None,
{
    let p = has_id(id);
    table::lemma_find(rows, p);
    if 0 <= k < rows.len() && rows[k].id == id {
        assert(p(rows[k]));
        let at = table::find(rows, p)->0;
        if at < k {
            assert(rows[at].id != rows[k].id);
        }
    }
    if table::find(rows, p) is Some {
        assert(rows[table::find(rows, p)->0].id == id);
    }
}

/// A table has no identifier twice and no fingerprint twice.
pub proof fn lemma_rows_are_told_apart(rows: Seq<MemoryRowV>, i: int, j: int)
    requires
        is_table(rows),
        0 <= i < rows.len(),
        0 <= j < rows.len(),
    ensures
        rows[i].id == rows[j].id ==> i == j,
        rows[i].summary_hash == rows[j].summary_hash && rows[i].summary_hash is Some ==> i == j,
        ids_of(rows).len() == rows.len(),
        ids_of(rows)[i] == rows[i].id,
{
    if i < j {
        assert(rows[i].id != rows[j].id);
        assert(rows[i].summary_hash is Some ==> rows[i].summary_hash != rows[j].summary_hash);
    } else if j < i {
        assert(rows[j].id != rows[i].id);
        assert(rows[j].summary_hash is Some ==> rows[j].summary_hash != rows[i].summary_hash);
    }
}

/// New content whose identifier a row of other content has is not stored.
pub proof fn lemma_taken_identifier_is_refused(
    rows: Seq<MemoryRowV>,
    dims: nat,
    m: MemoryV,
    now: (i64, u32),
    k: int,
)
    requires
        0 <= k < rows.len(),
        rows[k].id == m.id,
        forall|i: int|
            0 <= i < rows.len() ==> (#[trigger] rows[i]).summary_hash != Some(
                digest::summary_hash_text(m.topic, m.summary),
            ),
    ensures
        store_step(rows, dims, m) matches StoreStep::Fail { error } && error is Database,
        rows_after_store(rows, dims, m, now) == rows,
{
    table::lemma_find(rows, has_hash(digest::summary_hash_text(m.topic, m.summary)));
    table::lemma_find(rows, has_id(m.id));
    assert(has_id(m.id)(rows[k]));
    if let Some(i) = table::find(rows, has_hash(digest::summary_hash_text(m.topic, m.summary))) {
        assert(rows[i].summary_hash == Some(digest::summary_hash_text(m.topic, m.summary)));
    }
}

/// What storing keeps in a row of its own is the memory, and in a row that was there the keywords
/// of both.
pub proof fn lemma_kept_memory_is_read_back(
    rows: Seq<MemoryRowV>,
    after: Seq<MemoryRowV>,
    dims: nat,
    m: MemoryV,
    now: (i64, u32),
)
    requires
        is_kept(rows, after, dims, m),
    ensures
        store_step(rows, dims, m) is Insert ==> json::strings_of(after.last().keywords)
            == m.keywords && json::strings_of(after.last().related_ids) == m.related_ids,
        store_step(rows, dims, m) is Insert && row::has_plain_times(m) ==> row::memory_of_row(
            after.last(),
            now,
        ) == (MemoryV { scope: memory::Scope::User, ..m }),
        store_step(rows, dims, m) matches StoreStep::Merge { at } ==> forall|w: Seq<char>| #[trigger]
            json::strings_of(after[at].keywords).contains(w) == (json::strings_of(
                rows[at].keywords,
            ).contains(w) || m.keywords.contains(w)),
{
    match store_step(rows, dims, m) {
        StoreStep::Merge { at } => {
            assert forall|w: Seq<char>| #[trigger]
                json::strings_of(after[at].keywords).contains(w) == (json::strings_of(
                    rows[at].keywords,
                ).contains(w) || m.keywords.contains(w)) by {
                lemma_union_members(json::strings_of(rows[at].keywords), m.keywords, w);
            }
        },
        _ => {},
    }
}

/// A union holds what either list holds, and nothing else.
pub proof fn lemma_union_members(a: Seq<Seq<char>>, b: Seq<Seq<char>>, w: Seq<char>)
    ensures
        union(a, b).contains(w) == (a.contains(w) || b.contains(w)),
    decreases b.len(),
{
    if b.len() > 0 {
        let front = b.drop_last();
        let u = union(a, front);
        lemma_union_members(a, front, w);
        assert(b =~= front.push(b.last()));
        assert(b.contains(w) == (front.contains(w) || w == b.last())) by {
            if front.contains(w) {
                let i = choose|i: int| 0 <= i < front.len() && front[i] == w;
                assert(b[i] == w);
            }
            if w == b.last() {
                assert(b[b.len() - 1] == w);
            }
            if b.contains(w) && w != b.last() {
                let i = choose|i: int| 0 <= i < b.len() && b[i] == w;
                assert(front[i] == w);
            }
        }
        lemma_union_step(a, front, b.last());
        let out = union(a, b);
        assert(u.push(b.last()).contains(w) == (u.contains(w) || w == b.last())) by {
            let p = u.push(b.last());
            if u.contains(w) {
                let i = choose|i: int| 0 <= i < u.len() && u[i] == w;
                assert(p[i] == w);
            }
            if w == b.last() {
                assert(p[u.len() as int] == w);
            }
            if p.contains(w) && w != b.last() {
                let i = choose|i: int| 0 <= i < p.len() && p[i] == w;
                assert(u[i] == w);
            }
        }
    }
}

/// A sweep by weight takes what is below it also where weights are negative: more than zero bits
/// behind the sign mean less.
pub proof fn lemma_pruning_below_zero(rows: Seq<MemoryRowV>, threshold: u32, r: MemoryRowV)
    requires
        rows.contains(r),
        r.importance != "critical"@,
    ensures
        r.weight > 0x8000_0000 && threshold < 0x8000_0000 ==> !rows.filter(
            stays(None, Some(threshold)),
        ).contains(r),
        r.weight < 0x8000_0000 && threshold >= 0x8000_0000 ==> rows.filter(
            stays(None, Some(threshold)),
        ).contains(r),
        r.weight >= 0x8000_0000 && threshold >= 0x8000_0000 ==> rows.filter(
            stays(None, Some(threshold)),
        ).contains(r) == (r.weight <= threshold),
{
    table::lemma_filter_members(rows, stays(None, Some(threshold)), r);
    reveal_strlit("critical");
}

} // verus!
