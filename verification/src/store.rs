//! The store: its tables, the memories that were read last, and whether it may be changed.
use vstd::prelude::*;
use vstd::string::*;
use crate::cache;
use crate::cache::Cache;
use crate::code_areas;
use crate::code_areas::{
    AreaFilter, AreaFilterV, CodeArea, CodeAreaRow, CodeAreaRowV, CodeAreaV, CodeAreas, TouchV,
};
use crate::digest;
use crate::embedding;
use crate::error::{ErrorV, IcmError, IcmResult};
use crate::facts;
use crate::facts::{Fact, FactV, Facts, FactsStats, NewFactV};
use crate::hooks;
use crate::hooks::{
    HookEvent, HookEventInsert, HookEventV, HookRow, HookRowV, HookStatsRow, Hooks,
};
use crate::ident;
use crate::json;
use crate::memories;
use crate::memories::{Memories, StoreStep};
use crate::memory;
use crate::memory::{Memory, MemoryV};
use crate::pending;
use crate::pending::{Pending, PendingRow, PendingV};
use crate::queries;
use crate::relations;
use crate::row;
use crate::row::{MemoryRow, MemoryRowV};
use crate::table;
use crate::text;
use crate::time;
use crate::time::Timestamp;

verus! {

/// The number of components of an embedding, where nothing else is said.
pub const DEFAULT_EMBEDDING_DIMS: usize = 384;

/// A store.
pub struct SqliteStore {
    pub(crate) memories: Memories,
    pub(crate) cache: Cache,
    pub(crate) pending: Pending,
    pub(crate) code_areas: CodeAreas,
    pub(crate) hooks: Hooks,
    pub(crate) facts: Facts,
    pub(crate) hook_counter: Option<i64>,
    pub(crate) readonly: bool,
}

/// The mathematical reading of a store.
#[verifier::ext_equal]
pub struct StoreV {
    pub memories: Seq<MemoryRowV>,
    pub dims: nat,
    pub cached: Seq<(Seq<char>, MemoryV)>,
    pub pending: Seq<PendingV>,
    pub code_areas: Seq<CodeAreaRowV>,
    pub hooks: Seq<HookRowV>,
    pub facts: Seq<FactV>,
    pub hook_counter: Option<i64>,
    pub readonly: bool,
}

/// The memory is what a row of the table gave at some time.
pub open spec fn is_reading(rows: Seq<MemoryRowV>, m: MemoryV) -> bool {
    exists|at: int, now: (i64, u32)|
        0 <= at < rows.len() && rows[at].id == m.id && #[trigger] row::memory_of_row(rows[at], now)
            == m
}

/// Every memory that is kept at hand is what its row gives: the cache serves nothing stale.
pub open spec fn is_coherent(cached: Seq<(Seq<char>, MemoryV)>, rows: Seq<MemoryRowV>) -> bool {
    forall|i: int| 0 <= i < cached.len() ==> is_reading(rows, (#[trigger] cached[i]).1)
}

/// What holds of a store at all times.
pub open spec fn is_store(s: StoreV) -> bool {
    &&& memories::is_table(s.memories)
    &&& cache::is_cache(s.cached)
    &&& is_coherent(s.cached, s.memories)
    &&& pending::distinct_ids(s.pending)
    &&& code_areas::is_table(s.code_areas)
    &&& hooks::is_table(s.hooks)
    &&& facts::is_table(s.facts)
}

impl View for SqliteStore {
    type V = StoreV;

    closed spec fn view(&self) -> StoreV {
        StoreV {
            memories: self.memories.rows(),
            dims: self.memories.dims(),
            cached: self.cache.entries(),
            pending: self.pending.rows(),
            code_areas: self.code_areas.rows(),
            hooks: self.hooks.rows(),
            facts: self.facts.rows(),
            hook_counter: self.hook_counter,
            readonly: self.readonly,
        }
    }
}

/// The rows of all tables.
pub struct Tables {
    pub memories: Vec<MemoryRow>,
    pub dims: usize,
    pub pending: Vec<PendingRow>,
    pub code_areas: Vec<CodeAreaRow>,
    pub hooks: Vec<HookRow>,
    pub facts: Vec<Fact>,
    pub hook_counter: Option<i64>,
}

/// A store with these rows and nothing at hand.
pub open spec fn store_of(t: Tables, readonly: bool) -> StoreV {
    StoreV {
        memories: table::views(t.memories@),
        dims: t.dims as nat,
        cached: seq![],
        pending: pending::pending_views(t.pending@),
        code_areas: table::views(t.code_areas@),
        hooks: table::views(t.hooks@),
        facts: table::views(t.facts@),
        hook_counter: t.hook_counter,
        readonly,
    }
}

/// An empty store.
pub open spec fn empty_store(dims: nat) -> StoreV {
    StoreV {
        memories: seq![],
        dims,
        cached: seq![],
        pending: seq![],
        code_areas: seq![],
        hooks: seq![],
        facts: seq![],
        hook_counter: None,
        readonly: false,
    }
}

impl SqliteStore {
    /// The cache was made as it should be.
    pub closed spec fn has_sound_cache(&self) -> bool {
        self.cache.wf()
    }

    /// What holds of the store at all times.
    pub open spec fn wf(&self) -> bool {
        &&& is_store(self@)
        &&& self.has_sound_cache()
    }

    /// An empty store for embeddings of the usual number of components.
    pub fn in_memory() -> (r: IcmResult<SqliteStore>)
        ensures
            r matches Ok(s) && s.wf() && s@ == empty_store(DEFAULT_EMBEDDING_DIMS as nat),
    {
        SqliteStore::in_memory_with_dims(DEFAULT_EMBEDDING_DIMS)
    }

    /// An empty store for embeddings of `embedding_dims` components, where vectors of that size
    /// can be indexed.
    pub fn in_memory_with_dims(embedding_dims: usize) -> (r: IcmResult<SqliteStore>)
        ensures
            match r {
                Ok(s) => {
                    &&& embedding::can_be_indexed(embedding_dims as nat)
                    &&& s.wf()
                    &&& s@ == empty_store(embedding_dims as nat)
                },
                Err(e) => !embedding::can_be_indexed(embedding_dims as nat) && e@ is Database,
            },
    {
        if embedding_dims == 0 || embedding_dims > embedding::MAX_DIMS {
            return Err(
                IcmError::Database("vectors of this size cannot be indexed".to_owned()),
            );
        }
        Ok(
            SqliteStore {
                memories: Memories::new(embedding_dims),
                cache: Cache::new(),
                pending: Pending::new(),
                code_areas: CodeAreas::new(),
                hooks: Hooks::new(),
                facts: Facts::new(),
                hook_counter: None,
                readonly: false,
            },
        )
    }

    /// A store with the given rows, where they keep the rules of the tables.
    pub fn from_tables(tables: Tables, readonly: bool) -> (r: IcmResult<SqliteStore>)
        ensures
            match r {
                Ok(s) => s.wf() && s@ == store_of(tables, readonly),
                Err(e) => !is_store(store_of(tables, readonly)) && e@ == ErrorV::Database(
                    "database is inconsistent"@,
                ),
            },
    {
        let memories = Memories::from_rows(tables.memories, tables.dims);
        let pending = Pending::from_rows(tables.pending);
        let code_areas = CodeAreas::from_rows(tables.code_areas);
        let hooks = Hooks::from_rows(tables.hooks);
        let facts = Facts::from_rows(tables.facts);
        match (memories, pending, code_areas, hooks, facts) {
            (Some(memories), Some(pending), Some(code_areas), Some(hooks), Some(facts)) => Ok(
                SqliteStore {
                    memories,
                    cache: Cache::new(),
                    pending,
                    code_areas,
                    hooks,
                    facts,
                    hook_counter: tables.hook_counter,
                    readonly,
                },
            ),
            _ => Err(IcmError::Database("database is inconsistent".to_owned())),
        }
    }

    /// Whether the store was opened read-only.
    pub fn is_readonly(&self) -> (r: bool)
        ensures
            r == self@.readonly,
    {
        self.readonly
    }

    /// The table of memories.
    pub fn memories(&self) -> (r: &Memories)
        ensures
            r.rows() == self@.memories,
            r.dims() == self@.dims,
    {
        &self.memories
    }

    /// The queue of raw output.
    pub fn pending(&self) -> (r: &Pending)
        ensures
            r.rows() == self@.pending,
    {
        &self.pending
    }

    /// The table of edited files.
    pub fn code_areas(&self) -> (r: &CodeAreas)
        ensures
            r.rows() == self@.code_areas,
    {
        &self.code_areas
    }

    /// The table of hook runs.
    pub fn hooks(&self) -> (r: &Hooks)
        ensures
            r.rows() == self@.hooks,
    {
        &self.hooks
    }

    /// The table of facts.
    pub fn facts(&self) -> (r: &Facts)
        ensures
            r.rows() == self@.facts,
    {
        &self.facts
    }

    /// The number of hook calls, where one was counted.
    pub fn hook_counter(&self) -> (r: Option<i64>)
        ensures
            r == self@.hook_counter,
    {
        self.hook_counter
    }
}

// ---------------------------------------------------------------------------
// What is kept at hand stays true
// ---------------------------------------------------------------------------

proof fn lemma_reading(rows: Seq<MemoryRowV>, m: MemoryV) -> (r: (int, (i64, u32)))
    requires
        is_reading(rows, m),
    ensures
        0 <= r.0 < rows.len(),
        rows[r.0].id == m.id,
        row::memory_of_row(rows[r.0], r.1) == m,
{
    choose|at: int, now: (i64, u32)|
        0 <= at < rows.len() && rows[at].id == m.id && #[trigger] row::memory_of_row(rows[at], now)
            == m
}

proof fn lemma_coherent_push(
    cached: Seq<(Seq<char>, MemoryV)>,
    rows: Seq<MemoryRowV>,
    new: MemoryRowV,
)
    requires
        is_coherent(cached, rows),
    ensures
        is_coherent(cached, rows.push(new)),
{
    assert forall|i: int| 0 <= i < cached.len() implies is_reading(
        rows.push(new),
        (#[trigger] cached[i]).1,
    ) by {
        let (at, now) = lemma_reading(rows, cached[i].1);
        assert(rows.push(new)[at] == rows[at]);
        assert(row::memory_of_row(rows.push(new)[at], now) == cached[i].1);
    }
}

proof fn lemma_coherent_update(
    cached: Seq<(Seq<char>, MemoryV)>,
    rows: Seq<MemoryRowV>,
    changed: int,
    new: MemoryRowV,
)
    requires
        is_coherent(cached, rows),
        0 <= changed < rows.len(),
        cache::is_cache(cached),
        forall|i: int| 0 <= i < cached.len() ==> (#[trigger] cached[i]).0 != rows[changed].id,
    ensures
        is_coherent(cached, rows.update(changed, new)),
{
    let out = rows.update(changed, new);
    assert forall|i: int| 0 <= i < cached.len() implies is_reading(out, (#[trigger] cached[i]).1) by {
        let (at, now) = lemma_reading(rows, cached[i].1);
        assert(cached[i].0 == cached[i].1.id);
        assert(at != changed);
        assert(out[at] == rows[at]);
        assert(row::memory_of_row(out[at], now) == cached[i].1);
    }
}

proof fn lemma_coherent_part(
    part: Seq<(Seq<char>, MemoryV)>,
    whole: Seq<(Seq<char>, MemoryV)>,
    rows: Seq<MemoryRowV>,
)
    requires
        is_coherent(whole, rows),
        cache::is_part_of(part, whole),
    ensures
        is_coherent(part, rows),
{
    assert forall|i: int| 0 <= i < part.len() implies is_reading(rows, (#[trigger] part[i]).1) by {
        let k = choose|k: int| 0 <= k < whole.len() && whole[k] == part[i];
        assert(is_reading(rows, whole[k].1));
    }
}

/// A memory that was stored in a row of its own is read back as it was stored, whenever it is
/// read: `got` is anything that reading the store can give for its identifier.
pub proof fn lemma_stored_memory_is_read_back(s: StoreV, m: MemoryV, got: MemoryV)
    requires
        is_store(s),
        s.memories.len() > 0,
        s.memories.last().id == m.id,
        row::reads_back(s.memories.last(), m),
        is_reading(s.memories, got),
        got.id == m.id,
    ensures
        got == (MemoryV { scope: memory::Scope::User, ..m }),
{
    let rows = s.memories;
    let (at, now) = lemma_reading(rows, got);
    if at < rows.len() - 1 {
        assert(rows[at].id != rows[rows.len() - 1].id);
    }
    assert(row::memory_of_row(rows.last(), now) == got);
}

// ---------------------------------------------------------------------------
// Memories
// ---------------------------------------------------------------------------

fn refuse_write<T>(op: &str) -> (r: IcmResult<T>)
    ensures
        r matches Err(e) && e@ == ErrorV::ReadOnly(op@),
{
    Err(IcmError::ReadOnly(op.to_owned()))
}

/// What storing a memory at time `now` returns and leaves behind.
pub open spec fn stores(
    before: StoreV,
    after: StoreV,
    r: IcmResult<String>,
    m: MemoryV,
    now: (i64, u32),
) -> bool {
    let n = memory::normalized(m);
    if before.readonly {
        &&& r matches Err(e) && e@ == ErrorV::ReadOnly("store"@)
        &&& after == before
    } else if memory::refusal(n.topic, n.summary) is Some {
        &&& r matches Err(e) && e@ == ErrorV::InvalidInput(
            memory::refusal(n.topic, n.summary)->0,
        )
        &&& after == before
    } else {
        match memories::store_step(before.memories, before.dims, n) {
            StoreStep::Insert => {
                &&& r matches Ok(id) && id@ == n.id
                &&& after == (StoreV {
                    memories: before.memories.push(row::row_of_memory(n)),
                    ..before
                })
                &&& memories::is_kept(before.memories, after.memories, before.dims, n)
            },
            StoreStep::Merge { at } => {
                &&& r matches Ok(id) && id@ == before.memories[at].id
                &&& after == (StoreV {
                    memories: before.memories.update(
                        at,
                        memories::merged(before.memories[at], n, now),
                    ),
                    cached: if memories::absorbs(before.memories[at], n) {
                        before.cached
                    } else {
                        cache::without_key(before.cached, before.memories[at].id)
                    },
                    ..before
                })
                &&& memories::is_kept(before.memories, after.memories, before.dims, n)
                &&& memories::takes_up(before.memories, before.dims, n) ==> time::is_written(now)
            },
            StoreStep::Fail { error } => {
                &&& r matches Err(e) && e@ == error
                &&& after == before
            },
        }
    }
}

/// Storing a memory a second time leads to the same identifier and changes nothing, however often
/// and whenever it is done.
pub proof fn lemma_storing_twice_is_storing_once(
    before: StoreV,
    after: StoreV,
    r: IcmResult<String>,
    m: MemoryV,
    now: (i64, u32),
    later: (i64, u32),
)
    requires
        is_store(before),
        is_store(after),
        stores(before, after, r, m, now),
        r is Ok,
    ensures
        ({
            let n = memory::normalized(m);
            &&& memories::rows_after_store(after.memories, after.dims, n, later) == after.memories
            &&& memories::store_step(after.memories, after.dims, n) matches StoreStep::Merge { at }
                && after.memories[at].id == r->Ok_0@
        }),
{
    let n = memory::normalized(m);
    let hash = digest::summary_hash_text(n.topic, n.summary);
    table::lemma_find(before.memories, memories::has_hash(hash));
    let at = match memories::store_step(before.memories, before.dims, n) {
        StoreStep::Merge { at } => at,
        _ => before.memories.len() as int,
    };
    memories::lemma_storing_again_changes_nothing(after.memories, after.dims, at, n, later);
}

/// Where a memory of known content was stored, the keywords that its row had are read back, in
/// their order, before the new ones: `got` is anything that reading the store can then give.
pub proof fn lemma_merged_keywords_are_read_back(
    before: StoreV,
    after: StoreV,
    r: IcmResult<String>,
    m: MemoryV,
    now: (i64, u32),
    got: MemoryV,
)
    requires
        is_store(before),
        is_store(after),
        stores(before, after, r, m, now),
        r is Ok,
        memories::store_step(before.memories, before.dims, memory::normalized(m)) is Merge,
        is_reading(after.memories, got),
        got.id == r->Ok_0@,
    ensures
        ({
            let at = memories::store_step(
                before.memories,
                before.dims,
                memory::normalized(m),
            )->at;
            &&& json::strings_of(before.memories[at].keywords).is_prefix_of(got.keywords)
            &&& forall|i: int|
                0 <= i < m.keywords.len() ==> got.keywords.contains(#[trigger] m.keywords[i])
        }),
{
    let n = memory::normalized(m);
    let at = memories::store_step(before.memories, before.dims, n)->at;
    table::lemma_find(
        before.memories,
        memories::has_hash(digest::summary_hash_text(n.topic, n.summary)),
    );
    memories::lemma_merge_loses_nothing(before.memories[at], n);
    let (k, t) = lemma_reading(after.memories, got);
    if k < at {
        assert(after.memories[k].id != after.memories[at].id);
    } else if k > at {
        assert(after.memories[at].id != after.memories[k].id);
    }
}

impl SqliteStore {
    /// Stores a memory, and returns the identifier of its row: that of the row that holds the same
    /// content already, where there is one.
    pub fn store(&mut self, memory: Memory) -> (r: IcmResult<String>)
        requires
            old(self).wf(),
        ensures
            final(self).wf(),
            exists|now: (i64, u32)| #[trigger]
                stores(old(self)@, final(self)@, r, memory@, now) && time::is_clock_time(now),
    {
        let now = Timestamp::now();
        let ghost before = self@;
        let ghost m = memory@;
        if self.readonly {
            let r = refuse_write("store");
            assert(stores(before, self@, r, m, now@));
            return r;
        }
        let memory = match memory::validate_and_normalize(memory) {
            Ok(m) => m,
            Err(e) => {
                let r = Err(e);
                assert(stores(before, self@, r, m, now@));
                return r;
            },
        };
        proof {
            table::lemma_find(
                before.memories,
                memories::has_hash(digest::summary_hash_text(memory@.topic, memory@.summary)),
            );
        }
        let r = match self.memories.store_inner(&memory, now) {
            Ok(stored) => {
                if stored.changed {
                    self.cache.invalidate(stored.id.as_str());
                }
                Ok(stored.id)
            },
            Err(e) => Err(e),
        };
        proof {
            let n = memory@;
            match memories::store_step(before.memories, before.dims, n) {
                StoreStep::Insert => {
                    lemma_coherent_push(before.cached, before.memories, row::row_of_memory(n));
                },
                StoreStep::Merge { at } => {
                    let new = memories::merged(before.memories[at], n, now@);
                    if memories::absorbs(before.memories[at], n) {
                        assert(before.memories.update(at, new) =~= before.memories);
                    } else {
                        lemma_coherent_part(self@.cached, before.cached, before.memories);
                        lemma_coherent_update(self@.cached, before.memories, at, new);
                    }
                },
                StoreStep::Fail { .. } => {},
            }
            assert(stores(before, self@, r, m, now@));
        }
        r
    }
}

/// Where only rows change whose memories are not at hand, what is at hand stays true.
proof fn lemma_coherent_elsewhere(
    cached: Seq<(Seq<char>, MemoryV)>,
    rows: Seq<MemoryRowV>,
    out: Seq<MemoryRowV>,
)
    requires
        is_coherent(cached, rows),
        cache::is_cache(cached),
        out.len() == rows.len(),
        forall|k: int| 0 <= k < rows.len() ==> (#[trigger] out[k]).id == rows[k].id,
        forall|i: int, k: int|
            0 <= i < cached.len() && 0 <= k < rows.len() && (#[trigger] cached[i]).0 == (
            #[trigger] rows[k]).id ==> out[k] == rows[k],
    ensures
        is_coherent(cached, out),
{
    assert forall|i: int| 0 <= i < cached.len() implies is_reading(out, (#[trigger] cached[i]).1) by {
        let (at, now) = lemma_reading(rows, cached[i].1);
        assert(cached[i].0 == cached[i].1.id);
        assert(out[at] == rows[at]);
        assert(row::memory_of_row(out[at], now) == cached[i].1);
    }
}

/// What reading a memory returns and leaves behind. A memory that is at hand is returned as it is
/// kept.
pub open spec fn reads(before: StoreV, after: StoreV, r: Option<MemoryV>, id: Seq<char>) -> bool {
    &&& cache::key_at(before.cached, id) matches Some(i) ==> r == Some(before.cached[i].1)
    &&& match r {
        Some(m) => m.id == id && is_reading(before.memories, m),
        None => table::find(before.memories, memories::has_id(id)) is None,
    }
    &&& after == (StoreV {
        cached: if cache::key_at(before.cached, id) is Some {
            cache::after_get(before.cached, id)
        } else {
            match r {
                Some(m) => cache::after_put(
                    before.cached,
                    cache::MEMORY_CACHE_CAP as nat,
                    id,
                    m,
                ),
                None => before.cached,
            }
        },
        ..before
    })
}

/// The identifiers of a list that rows have, each once, in the order of the list.
pub open spec fn found_ids(rows: Seq<MemoryRowV>, ids: Seq<Seq<char>>) -> Seq<Seq<char>>
    decreases ids.len(),
{
    if ids.len() == 0 {
        seq![]
    } else {
        let front = ids.drop_last();
        if table::find(rows, memories::has_id(ids.last())) is Some && !front.contains(ids.last()) {
            found_ids(rows, front).push(ids.last())
        } else {
            found_ids(rows, front)
        }
    }
}

/// What is at hand after the memories of a list were read, each identifier once, in the order of
/// the list; `v` holds what was read.
pub open spec fn cached_after_reads(s: StoreV, ids: Seq<Seq<char>>, v: Seq<MemoryV>) -> Seq<
    (Seq<char>, MemoryV),
>
    decreases ids.len(),
{
    if ids.len() == 0 {
        s.cached
    } else {
        let front = ids.drop_last();
        let id = ids.last();
        let cached = cached_after_reads(s, front, v);
        if front.contains(id) {
            cached
        } else if cache::key_at(cached, id) is Some {
            cache::after_get(cached, id)
        } else if table::find(s.memories, memories::has_id(id)) is Some {
            cache::after_put(
                cached,
                cache::MEMORY_CACHE_CAP as nat,
                id,
                v[found_ids(s.memories, front).len() as int],
            )
        } else {
            cached
        }
    }
}

/// Each memory that is at hand when its turn comes is read as it is kept.
pub open spec fn serves_cached(s: StoreV, ids: Seq<Seq<char>>, v: Seq<MemoryV>) -> bool
    decreases ids.len(),
{
    if ids.len() == 0 {
        true
    } else {
        let front = ids.drop_last();
        let cached = cached_after_reads(s, front, v);
        &&& serves_cached(s, front, v)
        &&& !front.contains(ids.last()) && table::find(
            s.memories,
            memories::has_id(ids.last()),
        ) is Some ==> (cache::key_at(cached, ids.last()) matches Some(i)
            ==> v[found_ids(s.memories, front).len() as int] == cached[i].1)
    }
}

/// What is at hand after some reads does not depend on what is read later.
proof fn lemma_reads_so_far(s: StoreV, ids: Seq<Seq<char>>, v: Seq<MemoryV>, next: MemoryV)
    requires
        v.len() >= found_ids(s.memories, ids).len(),
    ensures
        cached_after_reads(s, ids, v.push(next)) == cached_after_reads(s, ids, v),
        serves_cached(s, ids, v) ==> serves_cached(s, ids, v.push(next)),
    decreases ids.len(),
{
    if ids.len() > 0 {
        lemma_reads_so_far(s, ids.drop_last(), v, next);
    }
}

/// What removing a memory returns and leaves behind.
pub open spec fn deletes(before: StoreV, after: StoreV, r: IcmResult<()>, id: Seq<char>) -> bool {
    if before.readonly {
        &&& r matches Err(e) && e@ == ErrorV::ReadOnly("delete"@)
        &&& after == before
    } else if table::find(before.memories, memories::has_id(id)) is None {
        &&& r matches Err(e) && e@ == ErrorV::NotFound(id)
        &&& after == before
    } else {
        &&& r is Ok
        &&& after == (StoreV {
            memories: memories::rows_after_delete(before.memories, id),
            cached: seq![],
            ..before
        })
        &&& forall|i: int|
            0 <= i < after.memories.len() ==> relations::refers_to_none(
                #[trigger] after.memories[i],
                seq![id],
            )
    }
}

/// What changing a memory at time `now` returns and leaves behind.
pub open spec fn updates(
    before: StoreV,
    after: StoreV,
    r: IcmResult<()>,
    m: MemoryV,
    now: (i64, u32),
) -> bool {
    if before.readonly {
        &&& r matches Err(e) && e@ == ErrorV::ReadOnly("update"@)
        &&& after == before
    } else {
        match memories::update_refusal(before.memories, before.dims, m) {
            Some(error) => {
                &&& r matches Err(e) && e@ == error
                &&& after == before
            },
            None => {
                &&& r is Ok
                &&& time::is_written(now)
                &&& after == (StoreV {
                    memories: memories::rows_after_update(before.memories, before.dims, m, now),
                    cached: cache::without_key(before.cached, m.id),
                    ..before
                })
                &&& forall|i: int|
                    0 <= i < after.memories.len() && (#[trigger] after.memories[i]).id == m.id
                        ==> row::lists_read_back(after.memories[i], m)
            },
        }
    }
}

/// A memory that was changed is read as it was changed: `got` is anything that reading the store
/// can then give for its identifier.
pub proof fn lemma_updated_memory_is_read_back(
    before: StoreV,
    after: StoreV,
    r: IcmResult<()>,
    m: MemoryV,
    now: (i64, u32),
    got: MemoryV,
)
    requires
        is_store(before),
        is_store(after),
        updates(before, after, r, m, now),
        r is Ok,
        is_reading(after.memories, got),
        got.id == m.id,
    ensures
        got == (MemoryV {
            created_at: got.created_at,
            updated_at: got.updated_at,
            last_accessed: got.last_accessed,
            scope: memory::Scope::User,
            ..m
        }),
{
    let rows = before.memories;
    let p = memories::has_id(m.id);
    table::lemma_find(rows, p);
    let at = table::find(rows, p)->0;
    let (k, t) = lemma_reading(after.memories, got);
    if k != at {
        assert(after.memories[at].id == m.id && after.memories[k].id == m.id);
        if k < at {
            assert(after.memories[k].id != after.memories[at].id);
        } else {
            assert(after.memories[at].id != after.memories[k].id);
        }
    }
    memory::lemma_importance_reads_back(m.importance);
    memory::lemma_source_reads_back(m.source);
    match m.embedding {
        Some(e) => {
            embedding::lemma_embedding_reads_back(e);
        },
        None => {},
    }
    assert(row::lists_read_back(after.memories[at], m));
}

/// A memory that was removed is not found any more.
pub proof fn lemma_deleted_memory_is_not_read(before: StoreV, id: Seq<char>, got: MemoryV)
    requires
        is_store(before),
        got.id == id,
    ensures
        !is_reading(memories::rows_after_delete(before.memories, id), got),
{
    let out = memories::rows_after_delete(before.memories, id);
    memories::lemma_deleted_memory_is_gone(before.memories, id);
    table::lemma_find(out, memories::has_id(id));
    if is_reading(out, got) {
        let (at, now) = lemma_reading(out, got);
        assert(memories::has_id(id)(out[at]));
    }
}

impl SqliteStore {
    /// The memory with an identifier, from what is at hand or from its row.
    pub fn get(&mut self, id: &str) -> (r: IcmResult<Option<Memory>>)
        requires
            old(self).wf(),
        ensures
            final(self).wf(),
            r matches Ok(m) && reads(old(self)@, final(self)@, memories::opt_memory(m), id@),
    {
        let ghost before = self@;
        proof {
            table::lemma_find(before.cached, cache::has_key(id@));
            table::lemma_find(before.memories, memories::has_id(id@));
        }
        match self.cache.get(id) {
            Some(m) => {
                proof {
                    let i = cache::key_at(before.cached, id@)->0;
                    assert(before.cached[i].0 == before.cached[i].1.id);
                    assert(is_reading(before.memories, before.cached[i].1));
                    lemma_coherent_part(self@.cached, before.cached, before.memories);
                }
                return Ok(Some(m));
            },
            None => {},
        }
        proof {
            assert(self@ == before);
        }
        let now = Timestamp::now();
        match self.memories.get(id, now) {
            Some(m) => {
                self.cache.put(&m);
                proof {
                    let at = table::find(before.memories, memories::has_id(id@))->0;
                    assert(row::memory_of_row(before.memories[at], now@) == m@);
                    assert(is_reading(before.memories, m@));
                    assert forall|i: int| 0 <= i < self@.cached.len() implies is_reading(
                        before.memories,
                        (#[trigger] self@.cached[i]).1,
                    ) by {
                        if self@.cached[i] != (m@.id, m@) {
                            let k = choose|k: int|
                                0 <= k < before.cached.len() && before.cached[k]
                                    == self@.cached[i];
                            assert(is_reading(before.memories, before.cached[k].1));
                        }
                    }
                }
                Ok(Some(m))
            },
            None => Ok(None),
        }
    }

    /// The memories with the given identifiers, each once; an identifier that no memory has is
    /// passed over.
    pub fn get_many(&mut self, ids: &[&str]) -> (r: IcmResult<Vec<Memory>>)
        requires
            old(self).wf(),
        ensures
            final(self).wf(),
            r matches Ok(v) && {
                let all = text::slices(ids@);
                &&& final(self)@ == (StoreV {
                    cached: cached_after_reads(old(self)@, all, table::views(v@)),
                    ..old(self)@
                })
                &&& serves_cached(old(self)@, all, table::views(v@))
                &&& table::views(v@).map_values(|m: MemoryV| m.id) == found_ids(
                    old(self)@.memories,
                    all,
                )
                &&& forall|i: int|
                    0 <= i < v@.len() ==> is_reading(old(self)@.memories, (#[trigger] v@[i])@)
            },
    {
        let ghost before = self@;
        let ghost rows = self@.memories;
        let ghost all = text::slices(ids@);
        let mut out: Vec<Memory> = Vec::new();
        let mut i: usize = 0;
        assert(table::views(out@).map_values(|m: MemoryV| m.id) =~= found_ids(rows, all.take(0)));
        while i < ids.len()
            invariant
                self.wf(),
                rows == before.memories,
                is_store(before),
                self@ == (StoreV {
                    cached: cached_after_reads(before, all.take(i as int), table::views(out@)),
                    ..before
                }),
                serves_cached(before, all.take(i as int), table::views(out@)),
                all == text::slices(ids@),
                i <= ids@.len(),
                table::views(out@).map_values(|m: MemoryV| m.id) == found_ids(
                    rows,
                    all.take(i as int),
                ),
                forall|k: int| 0 <= k < out@.len() ==> is_reading(rows, (#[trigger] out@[k])@),
            decreases ids@.len() - i,
        {
            let id = ids[i];
            assert(all.take(i + 1).drop_last() =~= all.take(i as int));
            assert(all.take(i + 1).last() == id@);
            if !queries::stands_before(ids, i, id) {
                let ghost turn = self@;
                proof {
                    table::lemma_find(rows, memories::has_id(id@));
                    table::lemma_find(turn.cached, cache::has_key(id@));
                    if cache::key_at(turn.cached, id@) is Some {
                        let c = turn.cached[cache::key_at(turn.cached, id@)->0];
                        let (at, now) = lemma_reading(rows, c.1);
                        assert(memories::has_id(id@)(rows[at]));
                    }
                }
                match self.get(id) {
                    Ok(Some(m)) => {
                        let ghost known = table::views(out@).map_values(|m: MemoryV| m.id);
                        let ghost so_far = table::views(out@);
                        let ghost reading = m@;
                        proof {
                            let (at, now) = lemma_reading(rows, m@);
                            assert(memories::has_id(id@)(rows[at]));
                            assert(known.len() == so_far.len());
                            lemma_reads_so_far(before, all.take(i as int), so_far, reading);
                        }
                        out.push(m);
                        assert(table::views(out@) =~= so_far.push(reading));
                        assert(table::views(out@).map_values(|m: MemoryV| m.id) =~= known.push(
                            id@,
                        ));
                    },
                    _ => {},
                }
            }
            i += 1;
        }
        assert(all.take(all.len() as int) =~= all);
        Ok(out)
    }

    /// Puts a memory in the place of the one with its identifier.
    pub fn update(&mut self, memory: &Memory) -> (r: IcmResult<()>)
        requires
            old(self).wf(),
        ensures
            final(self).wf(),
            exists|now: (i64, u32)| #[trigger]
                updates(old(self)@, final(self)@, r, memory@, now) && time::is_clock_time(now),
    {
        let now = Timestamp::now();
        let ghost before = self@;
        if self.readonly {
            let r = refuse_write("update");
            assert(updates(before, self@, r, memory@, now@));
            return r;
        }
        let r = self.memories.update(memory, now);
        if r.is_ok() {
            self.cache.invalidate(memory.id.as_str());
        }
        proof {
            if memories::update_refusal(before.memories, before.dims, memory@) is None {
                let rows = before.memories;
                table::lemma_find(rows, memories::has_id(memory@.id));
                let at = table::find(rows, memories::has_id(memory@.id))->0;
                lemma_coherent_part(self@.cached, before.cached, rows);
                lemma_coherent_update(
                    self@.cached,
                    rows,
                    at,
                    memories::updated(rows[at], memory@, now@),
                );
            }
            assert(updates(before, self@, r, memory@, now@));
        }
        r
    }

    /// Removes the memory with an identifier, and every reference to it.
    pub fn delete(&mut self, id: &str) -> (r: IcmResult<()>)
        requires
            old(self).wf(),
        ensures
            final(self).wf(),
            deletes(old(self)@, final(self)@, r, id@),
    {
        if self.readonly {
            return refuse_write("delete");
        }
        let r = self.memories.delete(id);
        if r.is_ok() {
            self.cache.clear();
        }
        r
    }
}

/// What removing the memories lighter than a weight returns and leaves behind.
pub open spec fn prunes(
    before: StoreV,
    after: StoreV,
    r: IcmResult<usize>,
    threshold: u32,
) -> bool {
    if before.readonly {
        &&& r matches Err(e) && e@ == ErrorV::ReadOnly("prune"@)
        &&& after == before
    } else {
        &&& r matches Ok(n) && n == before.memories.filter(
            memories::goes(None, Some(threshold)),
        ).len()
        &&& after == (StoreV {
            memories: before.memories.filter(memories::stays(None, Some(threshold))),
            cached: seq![],
            ..before
        })
    }
}

/// What noting accesses at time `now` leaves behind.
pub open spec fn accesses(
    before: StoreV,
    after: StoreV,
    ids: Seq<Seq<char>>,
    now: (i64, u32),
) -> bool {
    if before.readonly {
        after == before
    } else {
        &&& after == (StoreV {
            memories: memories::rows_after_accesses(before.memories, ids, now),
            cached: cache::without_keys(before.cached, ids),
            ..before
        })
        &&& after.memories != before.memories ==> time::is_written(now)
    }
}

/// What putting one memory in the place of a topic at time `now` returns and leaves behind.
pub open spec fn consolidates(
    before: StoreV,
    after: StoreV,
    r: IcmResult<()>,
    topic: Seq<char>,
    m: MemoryV,
    now: (i64, u32),
) -> bool {
    let n = memory::normalized(m);
    let left = memories::rows_without_topic(before.memories, topic);
    if before.readonly {
        &&& r matches Err(e) && e@ == ErrorV::ReadOnly("consolidate_topic"@)
        &&& after == before
    } else if memory::refusal(n.topic, n.summary) is Some {
        &&& r matches Err(e) && e@ == ErrorV::InvalidInput(
            memory::refusal(n.topic, n.summary)->0,
        )
        &&& after == before
    } else {
        match memories::store_step(left, before.dims, n) {
            StoreStep::Fail { error } => {
                &&& r matches Err(e) && e@ == error
                &&& after == before
            },
            _ => {
                &&& r is Ok
                &&& after == (StoreV {
                    memories: memories::rows_after_store(left, before.dims, n, now),
                    cached: seq![],
                    ..before
                })
                &&& forall|i: int|
                    0 <= i < left.len() ==> relations::refers_to_none(
                        #[trigger] after.memories[i],
                        memories::ids_of(
                            before.memories.filter(memories::goes(Some(topic), None)),
                        ),
                    )
                &&& memories::is_kept(left, after.memories, before.dims, n)
                &&& memories::takes_up(left, before.dims, n) ==> time::is_written(now)
            },
        }
    }
}

impl SqliteStore {
    /// The number of memories.
    pub fn count(&self) -> (r: IcmResult<usize>)
        ensures
            r matches Ok(n) && n == self@.memories.len(),
    {
        Ok(self.memories.count())
    }

    /// The number of memories of a topic.
    pub fn count_by_topic(&self, topic: &str) -> (r: IcmResult<usize>)
        ensures
            r matches Ok(n) && n == self@.memories.filter(queries::in_topic(topic@)).len(),
    {
        Ok(self.memories.count_by_topic(topic))
    }

    /// Each topic in the order of its bytes, with the number of its memories.
    pub fn list_topics(&self) -> (r: IcmResult<Vec<(String, usize)>>)
        ensures
            r matches Ok(v) && queries::counted(v@) == queries::topic_counts(self@.memories),
    {
        Ok(self.memories.list_topics())
    }

    /// The memories of a topic, the heaviest first.
    pub fn get_by_topic(&self, topic: &str) -> (r: IcmResult<Vec<Memory>>)
        ensures
            r matches Ok(v) && queries::are_readings(
                table::views(v@),
                queries::heaviest_first(self@.memories.filter(queries::in_topic(topic@))),
            ),
    {
        let now = Timestamp::now();
        let v = self.memories.get_by_topic(topic, now);
        proof {
            let rows = queries::heaviest_first(self@.memories.filter(queries::in_topic(topic@)));
            assert(queries::memories_of(rows, now@) == table::views(v@));
        }
        Ok(v)
    }

    /// The memories of all topics that begin as the pattern does; an asterisk at its end does not
    /// count. The heaviest come first.
    pub fn get_by_topic_prefix(&self, pattern: &str) -> (r: IcmResult<Vec<Memory>>)
        ensures
            r matches Ok(v) && queries::are_readings(
                table::views(v@),
                queries::heaviest_first(
                    self@.memories.filter(
                        queries::under_prefix(queries::pattern_prefix(pattern@)),
                    ),
                ),
            ),
    {
        let now = Timestamp::now();
        let v = self.memories.get_by_topic_prefix(pattern, now);
        proof {
            let prefix = queries::pattern_prefix(pattern@);
            let rows = queries::heaviest_first(self@.memories.filter(queries::under_prefix(prefix)));
            assert(queries::memories_of(rows, now@) == table::views(v@));
        }
        Ok(v)
    }

    /// The memories that mention one of the keywords, the heaviest first: at most `limit`, and at
    /// most `MAX_SEARCH_RESULTS`. It fails where a memory has to be matched with a keyword that is
    /// too long.
    pub fn search_by_keywords(&self, keywords: &[&str], limit: usize) -> (r: IcmResult<
        Vec<Memory>,
    >)
        ensures
            match r {
                Ok(v) => {
                    &&& !queries::search_fails(self@.memories, text::slices(keywords@))
                    &&& queries::are_readings(
                        table::views(v@),
                        table::at_most(
                            queries::heaviest_first(
                                self@.memories.filter(
                                    queries::mentions_any(text::slices(keywords@)),
                                ),
                            ),
                            queries::search_limit(limit),
                        ),
                    )
                },
                Err(e) => queries::search_fails(self@.memories, text::slices(keywords@)) && e@
                    == ErrorV::Database("LIKE or GLOB pattern too complex"@),
            },
    {
        let now = Timestamp::now();
        let v = match self.memories.search_by_keywords(keywords, limit, now) {
            Ok(v) => v,
            Err(e) => {
                return Err(e);
            },
        };
        proof {
            let p = queries::mentions_any(text::slices(keywords@));
            let rows = table::at_most(
                queries::heaviest_first(self@.memories.filter(p)),
                queries::search_limit(limit),
            );
            assert(queries::memories_of(rows, now@) == table::views(v@));
        }
        Ok(v)
    }

    /// Notes that a memory was accessed. A store that was opened read-only is left as it is.
    pub fn update_access(&mut self, id: &str) -> (r: IcmResult<()>)
        requires
            old(self).wf(),
        ensures
            final(self).wf(),
            r is Ok,
            exists|now: (i64, u32)| #[trigger]
                accesses(old(self)@, final(self)@, seq![id@], now) && time::is_clock_time(now),
    {
        let ghost before = self@;
        let now = Timestamp::now();
        if self.readonly {
            assert(accesses(before, self@, seq![id@], now@));
            return Ok(());
        }
        self.memories.update_access(id, now);
        self.cache.invalidate(id);
        proof {
            let rows = before.memories;
            table::lemma_find(rows, memories::has_id(id@));
            lemma_coherent_part(self@.cached, before.cached, rows);
            match table::find(rows, memories::has_id(id@)) {
                Some(at) => {
                    if rows[at].access_count < u32::MAX {
                        lemma_coherent_update(
                            self@.cached,
                            rows,
                            at,
                            memories::accessed(rows[at], now@),
                        );
                    }
                },
                None => {},
            }
            assert(seq![id@].drop_last() =~= seq![]);
            assert(memories::rows_after_accesses(rows, seq![id@].drop_last(), now@) == rows);
            cache::lemma_without_one(before.cached, id@);
            assert(accesses(before, self@, seq![id@], now@));
        }
        Ok(())
    }

    /// Notes that several memories were accessed. A store that was opened read-only is left as it
    /// is.
    pub fn batch_update_access(&mut self, ids: &[&str]) -> (r: IcmResult<()>)
        requires
            old(self).wf(),
        ensures
            final(self).wf(),
            r is Ok,
            exists|now: (i64, u32)| #[trigger]
                accesses(old(self)@, final(self)@, text::slices(ids@), now) && time::is_clock_time(
                    now,
                ),
    {
        let ghost before = self@;
        let now = Timestamp::now();
        if self.readonly {
            assert(accesses(before, self@, text::slices(ids@), now@));
            return Ok(());
        }
        self.memories.batch_update_access(ids, now);
        self.cache.invalidate_many(ids);
        proof {
            let rows = before.memories;
            let all = text::slices(ids@);
            memories::lemma_accesses_change_only_theirs(rows, all, now@);
            lemma_coherent_part(self@.cached, before.cached, rows);
            assert forall|i: int, k: int|
                0 <= i < self@.cached.len() && 0 <= k < rows.len() && (
                #[trigger] self@.cached[i]).0 == (
                #[trigger] rows[k]).id implies self@.memories[k] == rows[k] by {
                if all.contains(rows[k].id) {
                    let j = choose|j: int| 0 <= j < all.len() && all[j] == rows[k].id;
                    assert(ids@[j]@ == rows[k].id);
                }
            }
            lemma_coherent_elsewhere(self@.cached, rows, self@.memories);
            assert(accesses(before, self@, all, now@));
        }
        Ok(())
    }

    /// Removes the memories that are lighter than `threshold`, except critical ones, and returns
    /// how many there were.
    pub fn prune(&mut self, threshold: u32) -> (r: IcmResult<usize>)
        requires
            old(self).wf(),
        ensures
            final(self).wf(),
            prunes(old(self)@, final(self)@, r, threshold),
    {
        if self.readonly {
            return refuse_write("prune");
        }
        let n: usize = self.memories.prune(threshold);
        self.cache.clear();
        Ok(n)
    }

    /// Puts one memory in the place of all memories of a topic, except critical ones.
    pub fn consolidate_topic(&mut self, topic: &str, consolidated: Memory) -> (r: IcmResult<()>)
        requires
            old(self).wf(),
        ensures
            final(self).wf(),
            exists|now: (i64, u32)| #[trigger]
                consolidates(old(self)@, final(self)@, r, topic@, consolidated@, now)
                    && time::is_clock_time(now),
    {
        let now = Timestamp::now();
        let ghost before = self@;
        let ghost m = consolidated@;
        if self.readonly {
            let r = refuse_write("consolidate_topic");
            assert(consolidates(before, self@, r, topic@, m, now@));
            return r;
        }
        let r = self.memories.consolidate_topic(topic, consolidated, now);
        if r.is_ok() {
            self.cache.clear();
        }
        assert(consolidates(before, self@, r, topic@, m, now@));
        r
    }
}

// ---------------------------------------------------------------------------
// The hook counter
// ---------------------------------------------------------------------------

/// The number of hook calls after one more.
pub open spec fn next_count(counter: Option<i64>) -> int {
    match counter {
        Some(n) => n + 1,
        None => 1,
    }
}

/// The counter after one more hook call: it stays where it can go no higher.
pub open spec fn counter_after(counter: Option<i64>) -> Option<i64> {
    if next_count(counter) <= i64::MAX {
        Some(next_count(counter) as i64)
    } else {
        counter
    }
}

/// The counter after some more hook calls.
pub open spec fn counter_after_calls(counter: Option<i64>, calls: nat) -> Option<i64>
    decreases calls,
{
    if calls == 0 {
        counter
    } else {
        counter_after(counter_after_calls(counter, (calls - 1) as nat))
    }
}

/// After a reset the counter counts the calls.
pub proof fn lemma_counter_counts_calls(calls: nat)
    requires
        calls <= i64::MAX,
    ensures
        counter_after_calls(Some(0), calls) == Some(calls as i64),
    decreases calls,
{
    if calls > 0 {
        lemma_counter_counts_calls((calls - 1) as nat);
    }
}

/// What counting a hook call returns and leaves behind.
pub open spec fn counts_call(before: StoreV, after: StoreV, r: IcmResult<usize>) -> bool {
    if before.readonly {
        &&& r matches Err(e) && e@ == ErrorV::ReadOnly("increment_hook_counter"@)
        &&& after == before
    } else {
        let n = next_count(before.hook_counter);
        &&& if 0 <= n <= i64::MAX && n <= usize::MAX {
            r matches Ok(count) && count == n
        } else if n > i64::MAX {
            r matches Err(e) && e@ == ErrorV::Database("hook counter out of range"@)
        } else {
            r matches Err(e) && e@ == ErrorV::Database(
                "Integer "@ + text::signed_decimal(n) + " out of range at index 0"@,
            )
        }
        &&& after == (StoreV { hook_counter: counter_after(before.hook_counter), ..before })
    }
}

/// What setting the number of hook calls to zero returns and leaves behind.
pub open spec fn resets_counter(before: StoreV, after: StoreV, r: IcmResult<()>) -> bool {
    if before.readonly {
        &&& r matches Err(e) && e@ == ErrorV::ReadOnly("reset_hook_counter"@)
        &&& after == before
    } else {
        &&& r is Ok
        &&& after == (StoreV { hook_counter: Some(0), ..before })
    }
}

impl SqliteStore {
    /// Counts a hook call, and returns the new number. A number that is negative or that can go no
    /// higher is reported as an error.
    pub fn increment_hook_counter(&mut self) -> (r: IcmResult<usize>)
        requires
            old(self).wf(),
        ensures
            final(self).wf(),
            counts_call(old(self)@, final(self)@, r),
    {
        if self.readonly {
            return refuse_write("increment_hook_counter");
        }
        let n: i64 = match self.hook_counter {
            Some(n) => {
                if n == i64::MAX {
                    return Err(IcmError::Database("hook counter out of range".to_owned()));
                }
                n + 1
            },
            None => 1,
        };
        self.hook_counter = Some(n);
        if n < 0 || n as u64 > usize::MAX as u64 {
            let mut message = "Integer ".to_owned();
            message.append(text::to_signed_decimal(n).as_str());
            message.append(" out of range at index 0");
            return Err(IcmError::Database(message));
        }
        Ok(n as usize)
    }

    /// Sets the number of hook calls to zero.
    pub fn reset_hook_counter(&mut self) -> (r: IcmResult<()>)
        requires
            old(self).wf(),
        ensures
            final(self).wf(),
            resets_counter(old(self)@, final(self)@, r),
    {
        if self.readonly {
            return refuse_write("reset_hook_counter");
        }
        self.hook_counter = Some(0);
        Ok(())
    }
}

// ---------------------------------------------------------------------------
// The queue of raw output
// ---------------------------------------------------------------------------

/// What removing pieces of output from the queue returns and leaves behind.
pub open spec fn dequeues(
    before: StoreV,
    after: StoreV,
    r: IcmResult<usize>,
    ids: Seq<Seq<char>>,
) -> bool {
    if ids.len() == 0 {
        &&& r matches Ok(n) && n == 0
        &&& after == before
    } else if before.readonly {
        &&& r matches Err(e) && e@ == ErrorV::ReadOnly("delete_pending_extractions"@)
        &&& after == before
    } else if ids.len() > pending::MAX_SQL_VARIABLES {
        &&& r matches Err(e) && e@ is Database
        &&& after == before
    } else {
        &&& r matches Ok(n) && n + after.pending.len() == before.pending.len()
        &&& after == (StoreV {
            pending: before.pending.filter(pending::has_none_of(ids)),
            ..before
        })
    }
}

/// What putting a piece of output into the queue returns and leaves behind.
pub open spec fn enqueues(
    before: StoreV,
    after: StoreV,
    r: IcmResult<String>,
    piece: PendingV,
) -> bool {
    if before.readonly {
        &&& r matches Err(e) && e@ == ErrorV::ReadOnly("enqueue_pending_extraction"@)
        &&& after == before
    } else if table::find(before.pending, pending::has_id(piece.id)) is Some {
        &&& r matches Err(e) && e@ == ErrorV::Database(
            "UNIQUE constraint failed: pending_extractions.id"@,
        )
        &&& after == before
    } else {
        &&& r matches Ok(id) && id@ == piece.id
        &&& after == (StoreV { pending: before.pending.push(piece), ..before })
    }
}

/// A piece of output with an identifier, captured at a time.
pub open spec fn piece_of(
    id: Seq<char>,
    project: Seq<char>,
    tool_name: Seq<char>,
    raw_output: Seq<char>,
    now: (i64, u32),
) -> PendingV {
    PendingV {
        id,
        project,
        tool_name,
        raw_output,
        captured_at: time::rfc3339_text(now.0, now.1),
    }
}

impl SqliteStore {
    /// Puts raw output into the queue under a new identifier, and returns that.
    pub fn enqueue_pending_extraction(
        &mut self,
        project: &str,
        tool_name: &str,
        raw_output: &str,
    ) -> (r: IcmResult<String>)
        requires
            old(self).wf(),
        ensures
            final(self).wf(),
            exists|id: Seq<char>, now: (i64, u32)|
                enqueues(
                    old(self)@,
                    final(self)@,
                    r,
                    #[trigger] piece_of(id, project@, tool_name@, raw_output@, now),
                ) && ident::is_id(id) && (r is Ok ==> time::is_noted(now)),
    {
        let id = ident::new_id();
        let now = Timestamp::now();
        let ghost piece = piece_of(id@, project@, tool_name@, raw_output@, now@);
        let ghost before = self@;
        let r = self.enqueue_piece(id, project, tool_name, raw_output, now);
        assert(enqueues(before, self@, r, piece));
        r
    }

    /// Puts raw output into the queue under the given identifier, captured at the given time.
    pub fn enqueue_piece(
        &mut self,
        id: String,
        project: &str,
        tool_name: &str,
        raw_output: &str,
        now: Timestamp,
    ) -> (r: IcmResult<String>)
        requires
            old(self).wf(),
        ensures
            final(self).wf(),
            enqueues(
                old(self)@,
                final(self)@,
                r,
                piece_of(id@, project@, tool_name@, raw_output@, now@),
            ),
            r is Ok && time::has_plain_year(now@.0, now@.1) ==> time::keeps_time(
                final(self)@.pending.last().captured_at,
            ),
    {
        if self.readonly {
            return refuse_write("enqueue_pending_extraction");
        }
        let row = (
            id.clone(),
            project.to_owned(),
            tool_name.to_owned(),
            raw_output.to_owned(),
            now.to_rfc3339(),
        );
        match self.pending.enqueue(row) {
            Ok(()) => Ok(id),
            Err(e) => Err(e),
        }
    }

    /// The oldest pieces of output, at most `limit` of them.
    pub fn list_pending_extractions(&self, limit: usize) -> (r: IcmResult<Vec<PendingRow>>)
        ensures
            r matches Ok(v) && pending::pending_views(v@) == table::at_most(
                pending::oldest_first(self@.pending),
                limit as nat,
            ),
    {
        Ok(self.pending.list(limit))
    }

    /// Removes the pieces of output with these identifiers, and returns how many there were.
    pub fn delete_pending_extractions(&mut self, ids: &[String]) -> (r: IcmResult<usize>)
        requires
            old(self).wf(),
        ensures
            final(self).wf(),
            dequeues(old(self)@, final(self)@, r, text::texts(ids@)),
    {
        if ids.len() == 0 {
            return Ok(0);
        }
        if self.readonly {
            return refuse_write("delete_pending_extractions");
        }
        self.pending.delete(ids)
    }

    /// The number of pieces of output in the queue.
    pub fn pending_extraction_count(&self) -> (r: IcmResult<usize>)
        ensures
            r matches Ok(n) && n == self@.pending.len(),
    {
        Ok(self.pending.count())
    }
}

// ---------------------------------------------------------------------------
// Edited files
// ---------------------------------------------------------------------------

/// What is known of an edit at a time.
pub open spec fn touch_of(
    project: &str,
    file_path: &str,
    description: Option<&str>,
    session_id: Option<&str>,
    tool_name: Option<&str>,
    now: (i64, u32),
) -> TouchV {
    TouchV {
        project: project@,
        file_path: file_path@,
        description: text::opt_slice(description),
        session_id: text::opt_slice(session_id),
        tool_name: text::opt_slice(tool_name),
        at: time::rfc3339_text(now.0, now.1),
    }
}

/// What noting an edit returns and leaves behind.
pub open spec fn touches(before: StoreV, after: StoreV, r: IcmResult<()>, t: TouchV) -> bool {
    if before.readonly {
        &&& r matches Err(e) && e@ == ErrorV::ReadOnly("upsert_code_area"@)
        &&& after == before
    } else {
        &&& after == (StoreV {
            code_areas: code_areas::rows_after_touch(before.code_areas, t),
            ..before
        })
        &&& match code_areas::touch_refusal(before.code_areas, t) {
            Some(error) => r matches Err(e) && e@ == error,
            None => r is Ok,
        }
    }
}

/// The edited files are those that rows stand for, as they are read at some time.
pub open spec fn are_areas(v: Seq<CodeAreaV>, rows: Seq<CodeAreaRowV>) -> bool {
    exists|now: (i64, u32)| #[trigger] code_areas::areas_of(rows, now) == v
}

impl SqliteStore {
    /// Notes an edit of a file of a project.
    pub fn upsert_code_area(
        &mut self,
        project: &str,
        file_path: &str,
        description: Option<&str>,
        session_id: Option<&str>,
        tool_name: Option<&str>,
    ) -> (r: IcmResult<()>)
        requires
            old(self).wf(),
        ensures
            final(self).wf(),
            exists|now: (i64, u32)|
                touches(
                    old(self)@,
                    final(self)@,
                    r,
                    #[trigger] touch_of(
                        project,
                        file_path,
                        description,
                        session_id,
                        tool_name,
                        now,
                    ),
                ) && (r is Ok ==> time::is_noted(now)),
    {
        let now = Timestamp::now();
        let ghost before = self@;
        let ghost t = touch_of(project, file_path, description, session_id, tool_name, now@);
        let r = if self.readonly {
            refuse_write("upsert_code_area")
        } else {
            self.code_areas.upsert(project, file_path, description, session_id, tool_name, now)
        };
        assert(touches(before, self@, r, t));
        r
    }

    /// The edited files, the one that was touched last first, at most `limit` of them: of one
    /// project, with a path that is a fragment or ends with a slash and the fragment, and touched
    /// since a time, where these are given.
    pub fn list_code_areas(
        &self,
        project: Option<&str>,
        in_file: Option<&str>,
        since: Option<Timestamp>,
        limit: usize,
    ) -> (r: IcmResult<Vec<CodeArea>>)
        ensures
            r matches Ok(v) && are_areas(
                table::views(v@),
                table::at_most(
                    code_areas::latest_first(
                        self@.code_areas.filter(
                            code_areas::passes(
                                AreaFilterV {
                                    project: text::opt_slice(project),
                                    in_file: text::opt_slice(in_file),
                                    since: match since {
                                        Some(t) => Some(t@),
                                        None => None,
                                    },
                                },
                            ),
                        ),
                    ),
                    limit as nat,
                ),
            ),
    {
        let now = Timestamp::now();
        let filter = AreaFilter { project, in_file, since };
        let v = self.code_areas.list(&filter, limit, now);
        proof {
            let p = code_areas::passes(code_areas::filter_view(filter));
            let rows = table::at_most(
                code_areas::latest_first(self@.code_areas.filter(p)),
                limit as nat,
            );
            assert(code_areas::areas_of(rows, now@) == table::views(v@));
        }
        Ok(v)
    }

    /// The number of edited files.
    pub fn code_area_count(&self) -> (r: IcmResult<usize>)
        ensures
            r matches Ok(n) && n == self@.code_areas.len(),
    {
        Ok(self.code_areas.count())
    }
}

// ---------------------------------------------------------------------------
// Hook telemetry
// ---------------------------------------------------------------------------

/// What recording a hook run returns and leaves behind; `ts` is the time of the run.
pub open spec fn records(
    before: StoreV,
    after: StoreV,
    r: IcmResult<i64>,
    ev: HookEventInsert,
    ts: Seq<char>,
) -> bool {
    let id = hooks::next_id(before.hooks);
    if before.readonly {
        &&& r matches Err(e) && e@ == ErrorV::ReadOnly("record_hook_event"@)
        &&& after == before
    } else if id > i64::MAX {
        &&& r matches Err(e) && e@ == ErrorV::Database("database or disk is full"@)
        &&& after == before
    } else {
        &&& r matches Ok(n) && n == id
        &&& after == (StoreV { hooks: before.hooks.push(hooks::row_of_event(id, ts, ev)), ..before })
    }
}

/// What removing the hook runs before a time returns and leaves behind.
pub open spec fn prunes_hooks(
    before: StoreV,
    after: StoreV,
    r: IcmResult<usize>,
    cutoff: Seq<char>,
) -> bool {
    if before.readonly {
        &&& r matches Err(e) && e@ == ErrorV::ReadOnly("prune_hook_events"@)
        &&& after == before
    } else {
        &&& r matches Ok(n) && n + after.hooks.len() == before.hooks.len()
        &&& after == (StoreV { hooks: before.hooks.filter(hooks::is_since(cutoff)), ..before })
    }
}

/// The runs are those that rows stand for, as they are read at some time.
pub open spec fn are_events(v: Seq<HookEventV>, rows: Seq<HookRowV>) -> bool {
    exists|now: (i64, u32)| #[trigger] hooks::events_of(rows, now) == v
}

impl SqliteStore {
    /// Appends a hook run, and returns the number of its row.
    pub fn record_hook_event(&mut self, ev: &HookEventInsert) -> (r: IcmResult<i64>)
        requires
            old(self).wf(),
        ensures
            final(self).wf(),
            exists|now: (i64, u32)|
                records(
                    old(self)@,
                    final(self)@,
                    r,
                    *ev,
                    #[trigger] time::rfc3339_text(now.0, now.1),
                ) && (r is Ok ==> time::is_noted(now)),
    {
        let now = Timestamp::now();
        let ghost before = self@;
        let r = if self.readonly {
            refuse_write("record_hook_event")
        } else {
            self.hooks.record(ev, now)
        };
        proof {
            let t = now@;
            assert(records(before, self@, r, *ev, time::rfc3339_text(t.0, t.1)));
        }
        r
    }

    /// Removes the hook runs before a time, an RFC 3339 text, and returns how many there were.
    pub fn prune_hook_events(&mut self, cutoff_rfc3339: &str) -> (r: IcmResult<usize>)
        requires
            old(self).wf(),
        ensures
            final(self).wf(),
            prunes_hooks(old(self)@, final(self)@, r, cutoff_rfc3339@),
    {
        if self.readonly {
            return refuse_write("prune_hook_events");
        }
        Ok(self.hooks.prune(cutoff_rfc3339))
    }

    /// The latest hook runs, of one event where one is given: at most `limit`, the latest first.
    pub fn hook_events_recent(&self, limit: usize, event_filter: Option<&str>) -> (r: IcmResult<
        Vec<HookEvent>,
    >)
        ensures
            r matches Ok(v) && are_events(
                table::views(v@),
                table::at_most(
                    self@.hooks.filter(hooks::is_event(text::opt_slice(event_filter))).reverse(),
                    limit as nat,
                ),
            ),
    {
        let now = Timestamp::now();
        let v = self.hooks.recent(limit, event_filter, now);
        proof {
            let rows = table::at_most(
                self@.hooks.filter(hooks::is_event(text::opt_slice(event_filter))).reverse(),
                limit as nat,
            );
            assert(hooks::events_of(rows, now@) == table::views(v@));
        }
        Ok(v)
    }

    /// The statistics of every event that ran since a time, an RFC 3339 text with any offset, in
    /// the order of the events' bytes.
    pub fn hook_stats(&self, since_rfc3339: &str) -> (r: IcmResult<Vec<HookStatsRow>>)
        requires
            self.wf(),
        ensures
            r matches Ok(v) && table::views(v@) == hooks::all_stats(self@.hooks, since_rfc3339@),
    {
        Ok(self.hooks.stats(since_rfc3339))
    }

    /// The number of hook runs.
    pub fn hook_event_count(&self) -> (r: IcmResult<usize>)
        ensures
            r matches Ok(n) && n == self@.hooks.len(),
    {
        Ok(self.hooks.count())
    }
}

// ---------------------------------------------------------------------------
// Facts
// ---------------------------------------------------------------------------

/// What setting a fact at time `now` returns and leaves behind.
pub open spec fn sets_fact(
    before: StoreV,
    after: StoreV,
    r: IcmResult<String>,
    f: NewFactV,
    now: (i64, u32),
) -> bool {
    if before.readonly {
        &&& r matches Err(e) && e@ == ErrorV::ReadOnly("set_fact"@)
        &&& after == before
    } else {
        &&& after == (StoreV { facts: facts::rows_after_set(before.facts, f, now), ..before })
        &&& match facts::set_refusal(before.facts, f) {
            Some(error) => r matches Err(e) && e@ == error,
            None => r matches Ok(id) && id@ == if facts::is_known(before.facts, f) {
                before.facts[table::find(
                    before.facts,
                    facts::is_current(f.entity, f.key),
                )->0].id
            } else {
                f.id
            },
        }
    }
}

/// What removing a fact with its history returns and leaves behind.
pub open spec fn forgets(
    before: StoreV,
    after: StoreV,
    r: IcmResult<usize>,
    entity: Seq<char>,
    key: Seq<char>,
) -> bool {
    if before.readonly {
        &&& r matches Err(e) && e@ == ErrorV::ReadOnly("forget_fact"@)
        &&& after == before
    } else {
        &&& r matches Ok(n) && n + after.facts.len() == before.facts.len()
        &&& after == (StoreV {
            facts: before.facts.filter(facts::is_elsewhere(entity, key)),
            ..before
        })
    }
}

impl SqliteStore {
    /// Sets the value of a key of an entity, and returns the identifier of its row.
    pub fn set_fact(&mut self, entity: &str, key: &str, value: &str, source: &str) -> (r: IcmResult<
        String,
    >)
        requires
            old(self).wf(),
        ensures
            final(self).wf(),
            exists|id: Seq<char>, now: (i64, u32)| #[trigger]
                sets_fact(
                    old(self)@,
                    final(self)@,
                    r,
                    (NewFactV { id, entity: entity@, key: key@, value: value@, source: source@ }),
                    now,
                ) && ident::is_id(id) && time::is_clock_time(now),
    {
        let id = ident::new_id();
        let now = Timestamp::now();
        let ghost before = self@;
        let ghost f = NewFactV {
            id: id@,
            entity: entity@,
            key: key@,
            value: value@,
            source: source@,
        };
        let r = if self.readonly {
            refuse_write("set_fact")
        } else {
            self.facts.set(id, entity, key, value, source, now)
        };
        assert(sets_fact(before, self@, r, f, now@));
        r
    }

    /// The value that a key of an entity has now.
    pub fn get_fact(&self, entity: &str, key: &str) -> (r: IcmResult<Option<Fact>>)
        ensures
            r matches Ok(found) && match found {
                Some(f) => table::find(self@.facts, facts::is_current(entity@, key@)) matches Some(i)
                    && f@ == self@.facts[i],
                None => table::find(self@.facts, facts::is_current(entity@, key@)) is None,
            },
    {
        Ok(self.facts.get(entity, key))
    }

    /// All values that a key of an entity has or had, the latest first.
    pub fn history(&self, entity: &str, key: &str) -> (r: IcmResult<Vec<Fact>>)
        ensures
            r matches Ok(v) && table::views(v@) == self@.facts.filter(
                facts::is_slot(entity@, key@),
            ).reverse(),
    {
        Ok(self.facts.history(entity, key))
    }

    /// What the keys of an entity have now, in the order of the keys' bytes: all of them, or those
    /// that begin with a prefix.
    pub fn list_facts(&self, entity: &str, prefix: Option<&str>) -> (r: IcmResult<Vec<Fact>>)
        ensures
            r matches Ok(v) && table::views(v@) == facts::by_key(
                self@.facts.filter(facts::is_listed(entity@, text::opt_slice(prefix))),
            ),
    {
        Ok(self.facts.list(entity, prefix))
    }

    /// Removes all values that a key of an entity has or had, and returns how many there were.
    pub fn forget_fact(&mut self, entity: &str, key: &str) -> (r: IcmResult<usize>)
        requires
            old(self).wf(),
        ensures
            final(self).wf(),
            forgets(old(self)@, final(self)@, r, entity@, key@),
    {
        if self.readonly {
            return refuse_write("forget_fact");
        }
        Ok(self.facts.forget(entity, key))
    }

    /// Numbers on the facts.
    pub fn facts_stats(&self) -> (r: IcmResult<FactsStats>)
        ensures
            r matches Ok(s) && {
                &&& s.active_count == self@.facts.filter(facts::active()).len()
                &&& s.total_count == self@.facts.len()
                &&& s.distinct_entities == text::names(facts::entities(self@.facts)).len()
                &&& facts::counted(s.top_entities@) == facts::entity_counts(self@.facts)
            },
    {
        Ok(self.facts.stats())
    }
}

// ---------------------------------------------------------------------------
// Stores that must not be changed
// ---------------------------------------------------------------------------

/// The error that an operation returned, where it returned one.
pub open spec fn error_of<T>(r: IcmResult<T>) -> Option<ErrorV> {
    match r {
        Ok(_) => None,
        Err(e) => Some(e@),
    }
}

/// A memory was stored, changed, removed, pruned or put in the place of a topic, with this error
/// or without one.
pub open spec fn writes_memories(before: StoreV, after: StoreV, error: Option<ErrorV>) -> bool {
    ||| exists|r: IcmResult<String>, m: MemoryV, now: (i64, u32)| #[trigger]
        stores(before, after, r, m, now) && error == error_of(r)
    ||| exists|r: IcmResult<()>, m: MemoryV, now: (i64, u32)| #[trigger]
        updates(before, after, r, m, now) && error == error_of(r)
    ||| exists|r: IcmResult<()>, id: Seq<char>| #[trigger]
        deletes(before, after, r, id) && error == error_of(r)
    ||| exists|r: IcmResult<usize>, threshold: u32| #[trigger]
        prunes(before, after, r, threshold) && error == error_of(r)
    ||| exists|r: IcmResult<()>, topic: Seq<char>, m: MemoryV, now: (i64, u32)| #[trigger]
        consolidates(before, after, r, topic, m, now) && error == error_of(r)
}

/// A hook call was counted, the counter was reset, raw output was put into the queue or taken from
/// it, or an edit was noted, with this error or without one.
pub open spec fn writes_work(before: StoreV, after: StoreV, error: Option<ErrorV>) -> bool {
    ||| exists|r: IcmResult<usize>| #[trigger]
        counts_call(before, after, r) && error == error_of(r)
    ||| exists|r: IcmResult<()>| #[trigger]
        resets_counter(before, after, r) && error == error_of(r)
    ||| exists|r: IcmResult<String>, piece: PendingV| #[trigger]
        enqueues(before, after, r, piece) && error == error_of(r)
    ||| exists|r: IcmResult<usize>, ids: Seq<Seq<char>>|
        ids.len() > 0 && #[trigger] dequeues(before, after, r, ids) && error == error_of(r)
    ||| exists|r: IcmResult<()>, t: TouchV| #[trigger]
        touches(before, after, r, t) && error == error_of(r)
}

/// A hook run was recorded, old runs were removed, or a fact was set or forgotten, with this error
/// or without one.
pub open spec fn writes_records(before: StoreV, after: StoreV, error: Option<ErrorV>) -> bool {
    ||| exists|r: IcmResult<i64>, ev: HookEventInsert, ts: Seq<char>| #[trigger]
        records(before, after, r, ev, ts) && error == error_of(r)
    ||| exists|r: IcmResult<usize>, cutoff: Seq<char>| #[trigger]
        prunes_hooks(before, after, r, cutoff) && error == error_of(r)
    ||| exists|r: IcmResult<String>, f: NewFactV, now: (i64, u32)| #[trigger]
        sets_fact(before, after, r, f, now) && error == error_of(r)
    ||| exists|r: IcmResult<usize>, entity: Seq<char>, key: Seq<char>| #[trigger]
        forgets(before, after, r, entity, key) && error == error_of(r)
}

/// A write of any kind took place, with this error or without one.
pub open spec fn writes(before: StoreV, after: StoreV, error: Option<ErrorV>) -> bool {
    ||| writes_memories(before, after, error)
    ||| writes_work(before, after, error)
    ||| writes_records(before, after, error)
}

/// A store that was opened read-only refuses every write, as one on a read-only store, and stays
/// as it was.
pub proof fn lemma_read_only_store_refuses_writes(
    before: StoreV,
    after: StoreV,
    error: Option<ErrorV>,
)
    requires
        before.readonly,
        writes(before, after, error),
    ensures
        after == before,
        error matches Some(e) && e is ReadOnly,
{
}

/// Noting accesses leaves a store that was opened read-only as it was.
pub proof fn lemma_read_only_store_notes_no_access(
    before: StoreV,
    after: StoreV,
    ids: Seq<Seq<char>>,
    now: (i64, u32),
)
    requires
        before.readonly,
        accesses(before, after, ids, now),
    ensures
        after == before,
{
}

// ---------------------------------------------------------------------------
// What each operation returns and leaves alone
// ---------------------------------------------------------------------------

/// A new store is empty and can be changed; it takes embeddings of 384 components where nothing
/// else is said. It keeps at most 256 memories at hand.
pub proof fn lemma_new_store_is_empty(dims: nat)
    ensures
        empty_store(dims).dims == dims,
        empty_store(dims).memories.len() == 0,
        empty_store(dims).cached.len() == 0,
        empty_store(dims).pending.len() == 0,
        empty_store(dims).code_areas.len() == 0,
        empty_store(dims).hooks.len() == 0,
        empty_store(dims).facts.len() == 0,
        empty_store(dims).hook_counter is None,
        !empty_store(dims).readonly,
        DEFAULT_EMBEDDING_DIMS == 384,
        cache::MEMORY_CACHE_CAP == 256,
        pending::MAX_SQL_VARIABLES == 32766,
{
}

/// A store of given rows holds them in their order, table by table, and nothing is at hand.
pub proof fn lemma_store_holds_its_tables(t: Tables, readonly: bool, i: int)
    ensures
        ({
            let s = store_of(t, readonly);
            &&& s.memories.len() == t.memories@.len()
            &&& 0 <= i < t.memories@.len() ==> s.memories[i] == t.memories@[i]@
            &&& s.dims == t.dims
            &&& s.cached.len() == 0
            &&& s.pending.len() == t.pending@.len()
            &&& 0 <= i < t.pending@.len() ==> s.pending[i] == pending::pending_view(t.pending@[i])
            &&& s.code_areas.len() == t.code_areas@.len()
            &&& 0 <= i < t.code_areas@.len() ==> s.code_areas[i] == t.code_areas@[i]@
            &&& s.hooks.len() == t.hooks@.len()
            &&& 0 <= i < t.hooks@.len() ==> s.hooks[i] == t.hooks@[i]@
            &&& s.facts.len() == t.facts@.len()
            &&& 0 <= i < t.facts@.len() ==> s.facts[i] == t.facts@[i]@
            &&& s.hook_counter == t.hook_counter
            &&& s.readonly == readonly
        }),
{
}

/// Storing changes the table of memories and what is at hand, and nothing else; where it fails, it
/// changes nothing. Content that no row has gets a row of its own, under its own identifier;
/// content that a row has leads to that row's identifier, and no other row changes.
pub proof fn lemma_storing_is_exact(
    before: StoreV,
    after: StoreV,
    r: IcmResult<String>,
    m: MemoryV,
    now: (i64, u32),
    k: int,
)
    requires
        is_store(before),
        stores(before, after, r, m, now),
        0 <= k < before.memories.len(),
    ensures
        after == (StoreV { memories: after.memories, cached: after.cached, ..before }),
        r is Err ==> after == before,
        before.readonly ==> r is Err,
        r matches Ok(id) ==> ({
            let hash = digest::summary_hash_text(
                memory::normalized(m).topic,
                memory::normalized(m).summary,
            );
            let known = exists|i: int|
                0 <= i < before.memories.len() && (#[trigger] before.memories[i]).summary_hash
                    == Some(hash);
            &&& !known ==> id@ == m.id && after.cached == before.cached && after.memories
                == before.memories.push(row::row_of_memory(memory::normalized(m)))
            &&& known ==> after.memories.len() == before.memories.len()
            &&& before.memories[k].summary_hash == Some(hash) ==> id@ == before.memories[k].id
                && after.memories[k].id == id@
            &&& known && before.memories[k].summary_hash != Some(hash) ==> after.memories[k]
                == before.memories[k]
        }),
{
    let n = memory::normalized(m);
    let hash = digest::summary_hash_text(n.topic, n.summary);
    let rows = before.memories;
    let p = memories::has_hash(hash);
    table::lemma_find(rows, p);
    if r is Ok {
        match table::find(rows, p) {
            Some(at) => {
                assert(p(rows[at]));
                if k < at {
                    assert(!p(rows[k]));
                } else if at < k {
                    assert(rows[at].summary_hash != rows[k].summary_hash);
                }
            },
            None => {
                assert forall|i: int| 0 <= i < rows.len() implies (#[trigger] rows[i]).summary_hash
                    != Some(hash) by {
                    assert(!p(rows[i]));
                }
            },
        }
    }
}

/// The first memory gets the first row.
pub proof fn lemma_first_memory_gets_a_row(
    before: StoreV,
    after: StoreV,
    r: IcmResult<String>,
    m: MemoryV,
    now: (i64, u32),
)
    requires
        stores(before, after, r, m, now),
        before.memories.len() == 0,
        !before.readonly,
        memory::refusal(memory::normalized(m).topic, m.summary) is None,
        m.embedding matches Some(e) ==> 0 < e.len() == before.dims,
    ensures
        r matches Ok(id) && id@ == m.id,
        after.memories == seq![row::row_of_memory(memory::normalized(m))],
{
    let n = memory::normalized(m);
    table::lemma_find(
        before.memories,
        memories::has_hash(digest::summary_hash_text(n.topic, n.summary)),
    );
    table::lemma_find(before.memories, memories::has_id(n.id));
    assert(before.memories.push(row::row_of_memory(n)) =~= seq![row::row_of_memory(n)]);
}

/// Reading finds a memory exactly where a row has its identifier, gives what that row holds, and
/// keeps it in front of what is at hand. No table changes.
pub proof fn lemma_reading_is_exact(
    before: StoreV,
    after: StoreV,
    r: Option<MemoryV>,
    id: Seq<char>,
    k: int,
)
    requires
        is_store(before),
        reads(before, after, r, id),
        0 <= k < before.memories.len(),
    ensures
        after == (StoreV { cached: after.cached, ..before }),
        before.memories[k].id == id ==> (r matches Some(m) && exists|now: (i64, u32)|
            #[trigger] row::memory_of_row(before.memories[k], now) == m),
        r matches Some(m) ==> m.id == id && after.cached.len() > 0 && after.cached[0] == (id, m),
        r is None ==> after == before,
{
    let rows = before.memories;
    table::lemma_find(rows, memories::has_id(id));
    table::lemma_find(before.cached, cache::has_key(id));
    if rows[k].id == id {
        assert(memories::has_id(id)(rows[k]));
        let m = r->0;
        let (at, now) = lemma_reading(rows, m);
        if at < k {
            assert(rows[at].id != rows[k].id);
        } else if k < at {
            assert(rows[k].id != rows[at].id);
        }
        assert(row::memory_of_row(rows[k], now) == m);
    }
    if r is None {
        match cache::key_at(before.cached, id) {
            Some(i) => {},
            None => {
                assert(after =~= before);
            },
        }
    }
}

/// Of a list of identifiers those are found that a row has, the first time that they occur.
pub proof fn lemma_found_identifiers(
    rows: Seq<MemoryRowV>,
    ids: Seq<Seq<char>>,
    id: Seq<char>,
)
    ensures
        found_ids(rows, Seq::empty()).len() == 0,
        found_ids(rows, ids.push(id)) == if (exists|i: int|
            0 <= i < rows.len() && (#[trigger] rows[i]).id == id) && !ids.contains(id) {
            found_ids(rows, ids).push(id)
        } else {
            found_ids(rows, ids)
        },
{
    let p = memories::has_id(id);
    table::lemma_find(rows, p);
    assert(ids.push(id).drop_last() =~= ids);
    assert((exists|i: int| 0 <= i < rows.len() && (#[trigger] rows[i]).id == id) == table::find(
        rows,
        p,
    ) is Some) by {
        if table::find(rows, p) is Some {
            assert(rows[table::find(rows, p)->0].id == id);
        }
        if exists|i: int| 0 <= i < rows.len() && (#[trigger] rows[i]).id == id {
            let i = choose|i: int| 0 <= i < rows.len() && (#[trigger] rows[i]).id == id;
            assert(p(rows[i]));
        }
    }
}

/// Reading a list of memories reads each identifier once, in turn, as single reads would; one that
/// occurred before, and one that nothing has, leave what is at hand alone.
pub proof fn lemma_reads_in_turn(
    s: StoreV,
    ids: Seq<Seq<char>>,
    v: Seq<MemoryV>,
    id: Seq<char>,
    got: MemoryV,
    after: StoreV,
)
    requires
        v.len() == found_ids(s.memories, ids).len(),
        reads((StoreV { cached: cached_after_reads(s, ids, v), ..s }), after, Some(got), id),
        exists|i: int| 0 <= i < s.memories.len() && (#[trigger] s.memories[i]).id == id,
    ensures
        cached_after_reads(s, Seq::empty(), v) == s.cached,
        ids.contains(id) ==> cached_after_reads(s, ids.push(id), v) == cached_after_reads(s, ids, v),
        !ids.contains(id) ==> cached_after_reads(s, ids.push(id), v.push(got)) == after.cached,
{
    let p = memories::has_id(id);
    table::lemma_find(s.memories, p);
    let i = choose|i: int| 0 <= i < s.memories.len() && (#[trigger] s.memories[i]).id == id;
    assert(p(s.memories[i]));
    assert(ids.push(id).drop_last() =~= ids);
    lemma_reads_so_far(s, ids, v, got);
    let cached = cached_after_reads(s, ids, v);
    assert(v.push(got)[found_ids(s.memories, ids).len() as int] == got);
}

/// Removing a memory takes its row and clears what is at hand; it fails, and changes nothing, where
/// no row has the identifier.
pub proof fn lemma_deleting_is_exact(
    before: StoreV,
    after: StoreV,
    r: IcmResult<()>,
    id: Seq<char>,
    k: int,
)
    requires
        is_store(before),
        deletes(before, after, r, id),
        !before.readonly,
        0 <= k < before.memories.len(),
    ensures
        after == (StoreV { memories: after.memories, cached: after.cached, ..before }),
        before.memories[k].id == id ==> r is Ok && after.memories.len() == before.memories.len() - 1
            && after.cached.len() == 0,
        r is Ok ==> exists|i: int|
            0 <= i < before.memories.len() && (#[trigger] before.memories[i]).id == id,
        r matches Err(e) ==> e@ == ErrorV::NotFound(id) && after == before,
{
    let rows = before.memories;
    let p = memories::has_id(id);
    table::lemma_find(rows, p);
    if rows[k].id == id {
        assert(p(rows[k]));
        memories::lemma_delete_takes_one_row(rows, k, k);
    }
    if r is Ok {
        assert(rows[table::find(rows, p)->0].id == id);
    }
}

/// Changing a memory changes its row alone, and it is not served from what was at hand before;
/// where it fails, it changes nothing.
pub proof fn lemma_updating_is_exact(
    before: StoreV,
    after: StoreV,
    r: IcmResult<()>,
    m: MemoryV,
    now: (i64, u32),
    k: int,
    e: (Seq<char>, MemoryV),
)
    requires
        is_store(before),
        updates(before, after, r, m, now),
        0 <= k < before.memories.len(),
    ensures
        after == (StoreV { memories: after.memories, cached: after.cached, ..before }),
        r is Err ==> after == before,
        r is Ok ==> {
            &&& after.memories.len() == before.memories.len()
            &&& before.memories[k].id != m.id ==> after.memories[k] == before.memories[k]
            &&& before.memories[k].id == m.id ==> after.memories[k].id == m.id
                && after.memories[k].topic == m.topic && after.memories[k].summary == m.summary
                && after.memories[k].weight == m.weight && after.memories[k].created_at
                == before.memories[k].created_at && after.memories[k].updated_at == Some(
                time::rfc3339_text(now.0, now.1),
            )
            &&& after.cached.contains(e) == (before.cached.contains(e) && e.0 != m.id)
        },
{
    if r is Ok {
        memories::lemma_update_replaces_all_but_the_making(
            before.memories,
            before.dims,
            m,
            now,
            k,
        );
        cache::lemma_forgetting_is_exact(before.cached, seq![], m.id, e);
    }
}

/// Pruning removes as many memories as it says, keeps the rest, and clears what is at hand.
pub proof fn lemma_pruning_is_exact(
    before: StoreV,
    after: StoreV,
    r: IcmResult<usize>,
    threshold: u32,
    row: MemoryRowV,
)
    requires
        prunes(before, after, r, threshold),
        !before.readonly,
        before.memories.contains(row),
        row.weight < 0x8000_0000,
        threshold < 0x8000_0000,
    ensures
        after == (StoreV { memories: after.memories, cached: seq![], ..before }),
        r matches Ok(n) && n + after.memories.len() == before.memories.len(),
        after.memories.contains(row) == (row.importance == "critical"@ || row.weight >= threshold),
{
    memories::lemma_pruning_takes_the_light(before.memories, threshold, row);
    table::lemma_filters_part(
        before.memories,
        memories::goes(None, Some(threshold)),
        memories::stays(None, Some(threshold)),
    );
}

/// Noting accesses counts each of them in its row and in no other, and none of these memories is
/// served from what was at hand before.
pub proof fn lemma_accesses_are_exact(
    before: StoreV,
    after: StoreV,
    id: Seq<char>,
    now: (i64, u32),
    k: int,
    e: (Seq<char>, MemoryV),
)
    requires
        is_store(before),
        accesses(before, after, seq![id], now),
        !before.readonly,
        0 <= k < before.memories.len(),
        before.memories[k].access_count < u32::MAX,
    ensures
        after == (StoreV { memories: after.memories, cached: after.cached, ..before }),
        after.memories.len() == before.memories.len(),
        before.memories[k].id == id ==> after.memories[k].access_count
            == before.memories[k].access_count + 1,
        before.memories[k].id != id ==> after.memories[k] == before.memories[k],
        after.cached.contains(e) == (before.cached.contains(e) && e.0 != id),
{
    let rows = before.memories;
    let ids = seq![id];
    assert(ids.drop_last() =~= Seq::<Seq<char>>::empty());
    assert(memories::rows_after_accesses(rows, ids.drop_last(), now) == rows);
    assert(memories::rows_after_accesses(rows, ids, now) == memories::rows_after_access(
        rows,
        id,
        now,
    ));
    table::lemma_find(rows, memories::has_id(id));
    match table::find(rows, memories::has_id(id)) {
        Some(at) => {
            assert(rows[at].id == id);
            if at < k {
                assert(rows[at].id != rows[k].id);
            }
            if at == k {
                memories::lemma_access_counts_one_more(rows, at, now, k);
            }
        },
        None => {
            assert(!memories::has_id(id)(rows[k]));
        },
    }
    cache::lemma_forgetting_is_exact(before.cached, ids, id, e);
    assert(ids.contains(e.0) == (e.0 == id)) by {
        if e.0 == id {
            assert(ids[0] == e.0);
        }
    }
}

/// Putting one memory in the place of a topic clears what is at hand and leaves everything but the
/// table of memories alone; where it fails, it changes nothing. The ordinary memories of the topic
/// are gone, and at most one row is new.
pub proof fn lemma_consolidating_is_exact(
    before: StoreV,
    after: StoreV,
    r: IcmResult<()>,
    topic: Seq<char>,
    m: MemoryV,
    now: (i64, u32),
)
    requires
        is_store(before),
        consolidates(before, after, r, topic, m, now),
    ensures
        after == (StoreV { memories: after.memories, cached: after.cached, ..before }),
        r is Err ==> after == before,
        r is Ok ==> {
            let kept = before.memories.filter(
                |row: MemoryRowV| row.importance == "critical"@ || row.topic != topic,
            );
            &&& after.cached.len() == 0
            &&& after.memories.len() == kept.len() || after.memories.len() == kept.len() + 1
        },
{
    let rows = before.memories;
    let p = |row: MemoryRowV| row.importance == "critical"@ || row.topic != topic;
    if r is Ok {
        lemma_same_rows(rows, p, memories::stays(Some(topic), None));
    }
}

proof fn lemma_same_rows(
    rows: Seq<MemoryRowV>,
    p: spec_fn(MemoryRowV) -> bool,
    q: spec_fn(MemoryRowV) -> bool,
)
    requires
        forall|r: MemoryRowV| #[trigger] p(r) == q(r),
    ensures
        rows.filter(p) == rows.filter(q),
    decreases rows.len(),
{
    reveal(Seq::filter);
    if rows.len() > 0 {
        lemma_same_rows(rows.drop_last(), p, q);
        assert(p(rows.last()) == q(rows.last()));
    }
}

/// A hook call makes the counter one more and returns it; the first call gives one.
pub proof fn lemma_calls_are_counted(before: StoreV, after: StoreV, r: IcmResult<usize>)
    requires
        counts_call(before, after, r),
        !before.readonly,
    ensures
        after == (StoreV { hook_counter: after.hook_counter, ..before }),
        before.hook_counter is None ==> (r matches Ok(n) && n == 1 && after.hook_counter == Some(
            1i64,
        )),
        before.hook_counter matches Some(c) ==> (0 <= c < i64::MAX && c < usize::MAX ==> (
        r matches Ok(n) && n == c + 1 && after.hook_counter == Some((c + 1) as i64))),
        before.hook_counter == Some(i64::MAX) ==> r is Err && after == before,
{
}

/// A reset sets the counter to zero and changes nothing else.
pub proof fn lemma_reset_is_exact(before: StoreV, after: StoreV, r: IcmResult<()>)
    requires
        resets_counter(before, after, r),
        !before.readonly,
    ensures
        r is Ok,
        after.hook_counter == Some(0i64),
        after == (StoreV { hook_counter: after.hook_counter, ..before }),
{
}

/// A piece of output that was put into the queue is its last, and is read as it was put there,
/// with the time of its coming.
pub proof fn lemma_queued_piece_is_read_back(
    before: StoreV,
    after: StoreV,
    r: IcmResult<String>,
    id: Seq<char>,
    project: Seq<char>,
    tool_name: Seq<char>,
    raw_output: Seq<char>,
    now: (i64, u32),
)
    requires
        enqueues(before, after, r, piece_of(id, project, tool_name, raw_output, now)),
        !before.readonly,
        forall|i: int| 0 <= i < before.pending.len() ==> (#[trigger] before.pending[i]).id != id,
    ensures
        r matches Ok(got) && got@ == id,
        after == (StoreV { pending: after.pending, ..before }),
        after.pending.len() == before.pending.len() + 1,
        forall|i: int|
            0 <= i < before.pending.len() ==> #[trigger] after.pending[i] == before.pending[i],
        ({
            let piece = after.pending[before.pending.len() as int];
            &&& piece.id == id
            &&& piece.project == project
            &&& piece.tool_name == tool_name
            &&& piece.raw_output == raw_output
            &&& piece.captured_at == time::rfc3339_text(now.0, now.1)
        }),
{
    let p = pending::has_id(id);
    table::lemma_find(before.pending, p);
    if table::find(before.pending, p) is Some {
        assert(before.pending[table::find(before.pending, p)->0].id == id);
    }
}

/// Taking pieces from the queue takes those that are named, and says how many.
pub proof fn lemma_dequeuing_is_exact(
    before: StoreV,
    after: StoreV,
    r: IcmResult<usize>,
    ids: Seq<Seq<char>>,
    piece: PendingV,
)
    requires
        dequeues(before, after, r, ids),
        !before.readonly,
    ensures
        after == (StoreV { pending: after.pending, ..before }),
        r is Ok == (ids.len() <= 32766),
        r is Err ==> after == before,
        r matches Ok(n) ==> {
            &&& n + after.pending.len() == before.pending.len()
            &&& after.pending.contains(piece) == (before.pending.contains(piece) && !ids.contains(
                piece.id,
            ))
        },
{
    pending::lemma_removed_pieces_are_gone(before.pending, ids, piece);
}

/// An edit is noted with what is known of it, under its project and its path.
pub proof fn lemma_edit_is_noted(
    before: StoreV,
    after: StoreV,
    r: IcmResult<()>,
    project: &str,
    file_path: &str,
    description: Option<&str>,
    session_id: Option<&str>,
    tool_name: Option<&str>,
    now: (i64, u32),
)
    requires
        is_store(before),
        !before.readonly,
        touches(
            before,
            after,
            r,
            touch_of(project, file_path, description, session_id, tool_name, now),
        ),
        before.code_areas.len() == 0,
    ensures
        r is Ok,
        after == (StoreV { code_areas: after.code_areas, ..before }),
        after.code_areas.len() == 1,
        ({
            let row = after.code_areas[0];
            &&& row.id == 1
            &&& row.project == project@
            &&& row.file_path == file_path@
            &&& row.description is Some == description is Some
            &&& description matches Some(s) ==> row.description == Some(s@)
            &&& row.session_id is Some == session_id is Some
            &&& session_id matches Some(s) ==> row.session_id == Some(s@)
            &&& row.tool_name is Some == tool_name is Some
            &&& tool_name matches Some(s) ==> row.tool_name == Some(s@)
            &&& row.touch_count == 1
            &&& row.first_touched_at == time::rfc3339_text(now.0, now.1)
            &&& row.last_touched_at == time::rfc3339_text(now.0, now.1)
        }),
{
    code_areas::lemma_first_edit_makes_a_row(
        before.code_areas,
        touch_of(project, file_path, description, session_id, tool_name, now),
    );
}

/// Noting an edit changes the table of edited files alone: where it succeeds, the file's count is
/// one more.
pub proof fn lemma_noted_edit_counts_one_more(
    before: StoreV,
    after: StoreV,
    r: IcmResult<()>,
    t: TouchV,
    at: int,
    k: int,
)
    requires
        is_store(before),
        touches(before, after, r, t),
        0 <= at < before.code_areas.len(),
        0 <= k < before.code_areas.len(),
        before.code_areas[at].project == t.project,
        before.code_areas[at].file_path == t.file_path,
    ensures
        after == (StoreV { code_areas: after.code_areas, ..before }),
        r is Err ==> after.code_areas == before.code_areas,
        r is Ok ==> {
            &&& after.code_areas.len() == before.code_areas.len()
            &&& after.code_areas[at].touch_count == before.code_areas[at].touch_count + 1
            &&& k != at ==> after.code_areas[k] == before.code_areas[k]
        },
        r is Ok == (!before.readonly && before.code_areas[at].touch_count < i64::MAX),
{
    let rows = before.code_areas;
    let p = code_areas::is_file(t.project, t.file_path);
    assert forall|j: int| 0 <= j < at implies !p(#[trigger] rows[j]) by {
        assert(!(rows[j].project == rows[at].project && rows[j].file_path == rows[at].file_path));
    }
    assert(table::is_first(rows, p, at));
    table::lemma_found(rows, p, at);
    if rows[at].touch_count < i64::MAX {
        code_areas::lemma_further_edit_counts_one_more(rows, t, at, k);
    }
}

/// A recorded run is the last of the table under the number that is returned, and reading it gives
/// what was reported.
pub proof fn lemma_recorded_run_is_read_back(
    before: StoreV,
    after: StoreV,
    r: IcmResult<i64>,
    ev: HookEventInsert,
    ts: Seq<char>,
    now: (i64, u32),
)
    requires
        records(before, after, r, ev, ts),
        r is Ok,
    ensures
        after == (StoreV { hooks: after.hooks, ..before }),
        after.hooks.len() == before.hooks.len() + 1,
        forall|i: int| 0 <= i < before.hooks.len() ==> #[trigger] after.hooks[i] == before.hooks[i],
        before.hooks.len() == 0 ==> r->Ok_0 == 1,
        before.hooks.len() > 0 ==> r->Ok_0 == before.hooks[before.hooks.len() - 1].id + 1,
        ({
            let e = hooks::event_of_row(after.hooks[before.hooks.len() as int], now);
            &&& e.id == r->Ok_0
            &&& time::rfc3339_parsed(ts) matches Some(t) ==> e.ts == t
            &&& e.event == ev.event@
            &&& e.project is Some == ev.project is Some
            &&& ev.project matches Some(s) ==> e.project == Some(s@)
            &&& e.session_id is Some == ev.session_id is Some
            &&& ev.session_id matches Some(s) ==> e.session_id == Some(s@)
            &&& e.tool_name is Some == ev.tool_name is Some
            &&& ev.tool_name matches Some(s) ==> e.tool_name == Some(s@)
            &&& e.duration_ms == ev.duration_ms
            &&& e.exit_code == ev.exit_code
            &&& e.payload_size == ev.payload_size
            &&& e.note is Some == ev.note is Some
            &&& ev.note matches Some(s) ==> e.note == Some(s@)
        }),
{
    hooks::lemma_run_is_read_back(r->Ok_0, ts, ev, now);
}

/// Removing old runs takes those before the time, says how many, and changes nothing else.
pub proof fn lemma_pruning_runs_is_exact(
    before: StoreV,
    after: StoreV,
    r: IcmResult<usize>,
    cutoff: Seq<char>,
    row: HookRowV,
)
    requires
        prunes_hooks(before, after, r, cutoff),
        !before.readonly,
    ensures
        after == (StoreV { hooks: after.hooks, ..before }),
        r matches Ok(n) && n + after.hooks.len() == before.hooks.len(),
        after.hooks.contains(row) == (before.hooks.contains(row) && !time::is_before_time(
            row.ts,
            cutoff,
        )),
{
    hooks::lemma_window_is_exact(before.hooks, cutoff, row.event, row);
}

/// Setting a fact returns the identifier of the row that then holds the value, and changes the
/// table of facts alone.
pub proof fn lemma_set_fact_is_current(
    before: StoreV,
    after: StoreV,
    r: IcmResult<String>,
    f: NewFactV,
    now: (i64, u32),
)
    requires
        is_store(before),
        sets_fact(before, after, r, f, now),
        r is Ok,
    ensures
        after == (StoreV { facts: after.facts, ..before }),
        ({
            let found = table::find(after.facts, facts::is_current(f.entity, f.key));
            &&& found matches Some(i) && {
                let now_set = after.facts[i];
                &&& now_set.entity == f.entity && now_set.key == f.key
                &&& now_set.value == f.value
                &&& now_set.superseded_at is None
                &&& now_set.id == r->Ok_0@
            }
        }),
{
    let rows = before.facts;
    let p = facts::is_current(f.entity, f.key);
    table::lemma_find(rows, p);
    table::lemma_find(after.facts, p);
    facts::lemma_set_then_get(rows, f, now);
}

/// Forgetting takes all values that the key of the entity has or had, says how many, and changes
/// nothing else.
pub proof fn lemma_forgetting_is_exact(
    before: StoreV,
    after: StoreV,
    r: IcmResult<usize>,
    entity: Seq<char>,
    key: Seq<char>,
    f: FactV,
)
    requires
        forgets(before, after, r, entity, key),
        !before.readonly,
    ensures
        after == (StoreV { facts: after.facts, ..before }),
        r matches Ok(n) && n + after.facts.len() == before.facts.len(),
        after.facts.contains(f) == (before.facts.contains(f) && (f.entity != entity || f.key
            != key)),
{
    facts::lemma_facts_are_found_exactly(before.facts, entity, key, seq![], f);
}

/// A store that was opened read-only says which operation it refused.
pub proof fn lemma_refused_operation_is_named(
    s: StoreV,
    m: MemoryV,
    text: Seq<char>,
    now: (i64, u32),
)
    requires
        s.readonly,
    ensures
        forall|r: IcmResult<String>| #[trigger]
            stores(s, s, r, m, now) ==> error_of(r) == Some(ErrorV::ReadOnly("store"@)),
        forall|r: IcmResult<()>| #[trigger]
            updates(s, s, r, m, now) ==> error_of(r) == Some(ErrorV::ReadOnly("update"@)),
        forall|r: IcmResult<()>| #[trigger]
            deletes(s, s, r, text) ==> error_of(r) == Some(ErrorV::ReadOnly("delete"@)),
        forall|r: IcmResult<usize>, w: u32| #[trigger]
            prunes(s, s, r, w) ==> error_of(r) == Some(ErrorV::ReadOnly("prune"@)),
        forall|r: IcmResult<()>| #[trigger]
            consolidates(s, s, r, text, m, now) ==> error_of(r) == Some(
                ErrorV::ReadOnly("consolidate_topic"@),
            ),
        forall|r: IcmResult<usize>| #[trigger]
            counts_call(s, s, r) ==> error_of(r) == Some(
                ErrorV::ReadOnly("increment_hook_counter"@),
            ),
        forall|r: IcmResult<()>| #[trigger]
            resets_counter(s, s, r) ==> error_of(r) == Some(ErrorV::ReadOnly("reset_hook_counter"@)),
        forall|r: IcmResult<String>, piece: PendingV| #[trigger]
            enqueues(s, s, r, piece) ==> error_of(r) == Some(
                ErrorV::ReadOnly("enqueue_pending_extraction"@),
            ),
        forall|r: IcmResult<usize>| #[trigger]
            dequeues(s, s, r, seq![text]) ==> error_of(r) == Some(
                ErrorV::ReadOnly("delete_pending_extractions"@),
            ),
        forall|r: IcmResult<()>, t: TouchV| #[trigger]
            touches(s, s, r, t) ==> error_of(r) == Some(ErrorV::ReadOnly("upsert_code_area"@)),
        forall|r: IcmResult<i64>, ev: HookEventInsert| #[trigger]
            records(s, s, r, ev, text) ==> error_of(r) == Some(
                ErrorV::ReadOnly("record_hook_event"@),
            ),
        forall|r: IcmResult<usize>| #[trigger]
            prunes_hooks(s, s, r, text) ==> error_of(r) == Some(
                ErrorV::ReadOnly("prune_hook_events"@),
            ),
        forall|r: IcmResult<String>, f: NewFactV| #[trigger]
            sets_fact(s, s, r, f, now) ==> error_of(r) == Some(ErrorV::ReadOnly("set_fact"@)),
        forall|r: IcmResult<usize>| #[trigger]
            forgets(s, s, r, text, text) ==> error_of(r) == Some(ErrorV::ReadOnly("forget_fact"@)),
{
}

} // verus!
