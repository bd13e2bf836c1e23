//! Rows of the table of memories.
use vstd::prelude::*;
use vstd::string::*;
use crate::digest;
use crate::embedding;
use crate::json;
use crate::memory;
use crate::memory::{Importance, Memory, MemorySource, MemoryV, Scope, SourceV};
use crate::text;
use crate::time;
use crate::time::Timestamp;

verus! {

/// One row of the table of memories, as its columns hold it.
///
/// `keywords` and `related_ids` are JSON texts, the times RFC 3339 texts. `source_data` is the
/// source that the column's JSON text stands for, where it stands for one.
#[derive(Debug, PartialEq, Eq)]
pub struct MemoryRow {
    pub id: String,
    pub created_at: String,
    pub updated_at: Option<String>,
    pub last_accessed: String,
    pub access_count: u32,
    pub weight: u32,
    pub topic: String,
    pub summary: String,
    pub raw_excerpt: Option<String>,
    pub keywords: Option<String>,
    pub importance: String,
    pub source_type: String,
    pub source_data: Option<MemorySource>,
    pub related_ids: Option<String>,
    pub embedding: Option<Vec<u8>>,
    pub summary_hash: Option<String>,
}

/// The mathematical reading of a row.
#[verifier::ext_equal]
pub struct MemoryRowV {
    pub id: Seq<char>,
    pub created_at: Seq<char>,
    pub updated_at: Option<Seq<char>>,
    pub last_accessed: Seq<char>,
    pub access_count: u32,
    pub weight: u32,
    pub topic: Seq<char>,
    pub summary: Seq<char>,
    pub raw_excerpt: Option<Seq<char>>,
    pub keywords: Option<Seq<char>>,
    pub importance: Seq<char>,
    pub source_type: Seq<char>,
    pub source_data: Option<SourceV>,
    pub related_ids: Option<Seq<char>>,
    pub embedding: Option<Seq<u8>>,
    pub summary_hash: Option<Seq<char>>,
}

/// The bytes in an optional blob.
pub open spec fn opt_blob(b: Option<Vec<u8>>) -> Option<Seq<u8>> {
    match b {
        Some(v) => Some(v@),
        None => None,
    }
}

impl View for MemoryRow {
    type V = MemoryRowV;

    open spec fn view(&self) -> MemoryRowV {
        MemoryRowV {
            id: self.id@,
            created_at: self.created_at@,
            updated_at: text::opt_text(self.updated_at),
            last_accessed: self.last_accessed@,
            access_count: self.access_count,
            weight: self.weight,
            topic: self.topic@,
            summary: self.summary@,
            raw_excerpt: text::opt_text(self.raw_excerpt),
            keywords: text::opt_text(self.keywords),
            importance: self.importance@,
            source_type: self.source_type@,
            source_data: memory::opt_source(self.source_data),
            related_ids: text::opt_text(self.related_ids),
            embedding: opt_blob(self.embedding),
            summary_hash: text::opt_text(self.summary_hash),
        }
    }
}

/// A copy of a list of bytes.
fn copy_bytes(v: &Vec<u8>) -> (r: Vec<u8>)
    ensures
        r@ == v@,
{
    let mut r: Vec<u8> = Vec::new();
    let mut i: usize = 0;
    while i < v.len()
        invariant
            i <= v@.len(),
            r@ == v@.take(i as int),
        decreases v@.len() - i,
    {
        r.push(v[i]);
        assert(r@ =~= v@.take(i + 1));
        i += 1;
    }
    assert(v@.take(v@.len() as int) =~= v@);
    r
}

impl Clone for MemoryRow {
    fn clone(&self) -> (r: Self)
        ensures
            r@ == self@,
    {
        MemoryRow {
            id: self.id.clone(),
            created_at: self.created_at.clone(),
            updated_at: text::copy_opt(&self.updated_at),
            last_accessed: self.last_accessed.clone(),
            access_count: self.access_count,
            weight: self.weight,
            topic: self.topic.clone(),
            summary: self.summary.clone(),
            raw_excerpt: text::copy_opt(&self.raw_excerpt),
            keywords: text::copy_opt(&self.keywords),
            importance: self.importance.clone(),
            source_type: self.source_type.clone(),
            source_data: match &self.source_data {
                Some(s) => Some(s.clone()),
                None => None,
            },
            related_ids: text::copy_opt(&self.related_ids),
            embedding: match &self.embedding {
                Some(b) => Some(copy_bytes(b)),
                None => None,
            },
            summary_hash: text::copy_opt(&self.summary_hash),
        }
    }
}

/// The time at which a row was last changed: that of its creation where none is noted.
pub open spec fn updated_of(r: MemoryRowV, now: (i64, u32)) -> (i64, u32) {
    match r.updated_at {
        Some(s) => if s.len() == 0 {
            time::dt_of(r.created_at, now)
        } else {
            time::dt_of(s, now)
        },
        None => time::dt_of(r.created_at, now),
    }
}

/// The memory that a row stands for. A time that cannot be read counts as `now`.
pub open spec fn memory_of_row(r: MemoryRowV, now: (i64, u32)) -> MemoryV {
    MemoryV {
        id: r.id,
        created_at: time::dt_of(r.created_at, now),
        updated_at: updated_of(r, now),
        last_accessed: time::dt_of(r.last_accessed, now),
        access_count: r.access_count,
        weight: r.weight,
        topic: r.topic,
        summary: r.summary,
        raw_excerpt: r.raw_excerpt,
        keywords: json::strings_of(r.keywords),
        importance: memory::importance_of(r.importance),
        source: memory::source_of(r.source_type, r.source_data),
        related_ids: json::strings_of(r.related_ids),
        embedding: match r.embedding {
            Some(b) => Some(embedding::embedding_of(b)),
            None => None,
        },
        scope: Scope::User,
    }
}

/// The memory that a row stands for. A time that cannot be read counts as `now`.
pub fn row_to_memory(row: &MemoryRow, now: Timestamp) -> (r: Memory)
    ensures
        r@ == memory_of_row(row@, now@),
{
    let created_at = time::parse_dt(row.created_at.as_str(), now);
    let updated_at = match &row.updated_at {
        Some(s) => {
            if s.as_str().is_empty() {
                created_at
            } else {
                time::parse_dt(s.as_str(), now)
            }
        },
        None => created_at,
    };
    let components = match &row.embedding {
        Some(b) => Some(embedding::blob_to_embedding(b)),
        None => None,
    };
    Memory {
        id: row.id.clone(),
        created_at,
        updated_at,
        last_accessed: time::parse_dt(row.last_accessed.as_str(), now),
        access_count: row.access_count,
        weight: row.weight,
        topic: row.topic.clone(),
        summary: row.summary.clone(),
        raw_excerpt: text::copy_opt(&row.raw_excerpt),
        keywords: json::strings_in(&row.keywords),
        importance: Importance::parse(row.importance.as_str()),
        source: memory::parse_source(row.source_type.as_str(), &row.source_data),
        related_ids: json::strings_in(&row.related_ids),
        embedding: components,
        scope: Scope::User,
    }
}

/// Tells whether the embedding of a row stands in the index of vectors of `dims` components: it
/// does where it has that size.
pub fn indexed_vector(row: &MemoryRow, dims: usize) -> (r: bool)
    ensures
        r == (opt_blob(row.embedding) matches Some(b) && b.len() == 4 * dims),
{
    match &row.embedding {
        Some(b) => b.len() % 4 == 0 && b.len() / 4 == dims,
        None => false,
    }
}

/// The row that holds a memory.
pub open spec fn row_of_memory(m: MemoryV) -> MemoryRowV {
    MemoryRowV {
        id: m.id,
        created_at: time::rfc3339_text(m.created_at.0, m.created_at.1),
        updated_at: Some(time::rfc3339_text(m.updated_at.0, m.updated_at.1)),
        last_accessed: time::rfc3339_text(m.last_accessed.0, m.last_accessed.1),
        access_count: m.access_count,
        weight: m.weight,
        topic: m.topic,
        summary: m.summary,
        raw_excerpt: m.raw_excerpt,
        keywords: Some(json::json_text(m.keywords)),
        importance: memory::importance_text(m.importance),
        source_type: memory::source_type_text(m.source),
        source_data: memory::source_data_of(m.source),
        related_ids: Some(json::json_text(m.related_ids)),
        embedding: match m.embedding {
            Some(e) => Some(embedding::blob_of(e)),
            None => None,
        },
        summary_hash: Some(digest::summary_hash_text(m.topic, m.summary)),
    }
}

/// All times of the memory lie in the years 0 to 9999.
pub open spec fn has_plain_times(m: MemoryV) -> bool {
    &&& time::has_plain_year(m.created_at.0, m.created_at.1)
    &&& time::has_plain_year(m.updated_at.0, m.updated_at.1)
    &&& time::has_plain_year(m.last_accessed.0, m.last_accessed.1)
}

/// The row gives the memory back, whenever it is read. The scope is not kept: every memory that
/// is read is the user's own.
pub open spec fn reads_back(r: MemoryRowV, m: MemoryV) -> bool {
    forall|now: (i64, u32)| #[trigger] memory_of_row(r, now) == (MemoryV { scope: Scope::User, ..m })
}

/// The lists in the row are those of the memory.
pub open spec fn lists_read_back(r: MemoryRowV, m: MemoryV) -> bool {
    &&& json::strings_of(r.keywords) == m.keywords
    &&& json::strings_of(r.related_ids) == m.related_ids
}

/// The row that holds a memory. Reading it gives the memory back.
pub fn memory_to_row(m: &Memory) -> (r: MemoryRow)
    ensures
        r@ == row_of_memory(m@),
        lists_read_back(r@, m@),
        has_plain_times(m@) ==> reads_back(r@, m@),
{
    let blob = match &m.embedding {
        Some(e) => Some(embedding::embedding_to_blob(e)),
        None => None,
    };
    let created_at = m.created_at.to_rfc3339();
    let updated_at = m.updated_at.to_rfc3339();
    let last_accessed = m.last_accessed.to_rfc3339();
    let keywords = json::write_strings(&m.keywords);
    let related_ids = json::write_strings(&m.related_ids);
    let row = MemoryRow {
        id: m.id.clone(),
        created_at,
        updated_at: Some(updated_at),
        last_accessed,
        access_count: m.access_count,
        weight: m.weight,
        topic: m.topic.clone(),
        summary: m.summary.clone(),
        raw_excerpt: text::copy_opt(&m.raw_excerpt),
        keywords: Some(keywords),
        importance: m.importance.text(),
        source_type: memory::source_type(&m.source).to_owned(),
        source_data: memory::source_data(&m.source),
        related_ids: Some(related_ids),
        embedding: blob,
        summary_hash: Some(digest::summary_hash(m.topic.as_str(), m.summary.as_str())),
    };
    proof {
        memory::lemma_importance_reads_back(m.importance);
        memory::lemma_source_reads_back(m.source@);
        match m@.embedding {
            Some(e) => {
                embedding::lemma_embedding_reads_back(e);
            },
            None => {},
        }
        if has_plain_times(m@) {
            assert forall|now: (i64, u32)| #[trigger] memory_of_row(row@, now) == (MemoryV {
                scope: Scope::User,
                ..m@
            }) by {}
        }
    }
    row
}

// ---------------------------------------------------------------------------
// What a row holds
// ---------------------------------------------------------------------------

/// The reading of a row has, column by column, what the row has.
pub proof fn lemma_row_is_read_column_by_column(r: MemoryRow)
    ensures
        r@.id == r.id@,
        r@.created_at == r.created_at@,
        r.updated_at matches Some(s) ==> r@.updated_at == Some(s@),
        r@.updated_at is Some == r.updated_at is Some,
        r@.last_accessed == r.last_accessed@,
        r@.access_count == r.access_count,
        r@.weight == r.weight,
        r@.topic == r.topic@,
        r@.summary == r.summary@,
        r.raw_excerpt matches Some(s) ==> r@.raw_excerpt == Some(s@),
        r@.raw_excerpt is Some == r.raw_excerpt is Some,
        r.keywords matches Some(s) ==> r@.keywords == Some(s@),
        r@.keywords is Some == r.keywords is Some,
        r@.importance == r.importance@,
        r@.source_type == r.source_type@,
        r.source_data matches Some(s) ==> r@.source_data == Some(s@),
        r@.source_data is Some == r.source_data is Some,
        r.related_ids matches Some(s) ==> r@.related_ids == Some(s@),
        r@.related_ids is Some == r.related_ids is Some,
        r.embedding matches Some(b) ==> r@.embedding == Some(b@),
        r@.embedding is Some == r.embedding is Some,
        r.summary_hash matches Some(s) ==> r@.summary_hash == Some(s@),
        r@.summary_hash is Some == r.summary_hash is Some,
{
}

/// Each field of a memory goes to its own column: times as RFC 3339 texts, lists as JSON, the
/// embedding as its bytes, and with them the fingerprint of topic and summary.
pub proof fn lemma_each_field_has_its_column(m: MemoryV)
    ensures
        ({
            let r = row_of_memory(m);
            &&& r.id == m.id
            &&& r.created_at == time::rfc3339_text(m.created_at.0, m.created_at.1)
            &&& r.updated_at == Some(time::rfc3339_text(m.updated_at.0, m.updated_at.1))
            &&& r.last_accessed == time::rfc3339_text(m.last_accessed.0, m.last_accessed.1)
            &&& r.access_count == m.access_count
            &&& r.weight == m.weight
            &&& r.topic == m.topic
            &&& r.summary == m.summary
            &&& r.raw_excerpt == m.raw_excerpt
            &&& r.keywords == Some(json::json_text(m.keywords))
            &&& r.importance == memory::importance_text(m.importance)
            &&& r.source_type == memory::source_type_text(m.source)
            &&& r.source_data == memory::source_data_of(m.source)
            &&& r.related_ids == Some(json::json_text(m.related_ids))
            &&& r.embedding is Some == m.embedding is Some
            &&& m.embedding matches Some(e) ==> r.embedding == Some(embedding::blob_of(e))
            &&& r.summary_hash == Some(digest::summary_hash_text(m.topic, m.summary))
        }),
{
}

/// Each column gives its own field: a memory that was never changed was last changed when it was
/// made, a list that cannot be read is empty, and every memory is the user's own.
pub proof fn lemma_each_column_gives_its_field(r: MemoryRowV, now: (i64, u32))
    ensures
        ({
            let m = memory_of_row(r, now);
            &&& m.id == r.id
            &&& m.created_at == time::dt_of(r.created_at, now)
            &&& r.updated_at is None ==> m.updated_at == m.created_at
            &&& (r.updated_at matches Some(s) && s.len() == 0) ==> m.updated_at == m.created_at
            &&& r.updated_at matches Some(s) ==> (s.len() > 0 ==> m.updated_at == time::dt_of(
                s,
                now,
            ))
            &&& m.last_accessed == time::dt_of(r.last_accessed, now)
            &&& m.access_count == r.access_count
            &&& m.weight == r.weight
            &&& m.topic == r.topic
            &&& m.summary == r.summary
            &&& m.raw_excerpt == r.raw_excerpt
            &&& m.importance == memory::importance_of(r.importance)
            &&& m.source == memory::source_of(r.source_type, r.source_data)
            &&& m.embedding is Some == r.embedding is Some
            &&& r.embedding matches Some(b) ==> m.embedding == Some(embedding::embedding_of(b))
            &&& m.scope == Scope::User
        }),
        r.keywords matches Some(s) ==> (json::json_strings(s) matches Some(v) ==> memory_of_row(
            r,
            now,
        ).keywords == v),
        r.related_ids matches Some(s) ==> (json::json_strings(s) matches Some(v) ==> memory_of_row(
            r,
            now,
        ).related_ids == v),
        r.keywords is None || (r.keywords matches Some(s) && json::json_strings(s) is None)
            ==> memory_of_row(r, now).keywords.len() == 0,
        r.related_ids is None || (r.related_ids matches Some(s) && json::json_strings(s) is None)
            ==> memory_of_row(r, now).related_ids.len() == 0,
{
}

/// A row that gives a memory back gives it back in every field but the scope.
pub proof fn lemma_reading_back_is_of_every_field(r: MemoryRowV, m: MemoryV, now: (i64, u32))
    requires
        reads_back(r, m),
    ensures
        ({
            let g = memory_of_row(r, now);
            &&& g.id == m.id && g.created_at == m.created_at && g.updated_at == m.updated_at
            &&& g.last_accessed == m.last_accessed && g.access_count == m.access_count
            &&& g.weight == m.weight && g.topic == m.topic && g.summary == m.summary
            &&& g.raw_excerpt == m.raw_excerpt && g.keywords == m.keywords
            &&& g.importance == m.importance && g.source == m.source
            &&& g.related_ids == m.related_ids && g.embedding == m.embedding
        }),
{
}

/// A memory whose times lie in the years 0 to 9999, in a leap second or not, is one that its row
/// gives back.
pub proof fn lemma_plain_times(m: MemoryV)
    requires
        -62167219200 <= m.created_at.0 <= 253402300799,
        -62167219200 <= m.updated_at.0 <= 253402300799,
        -62167219200 <= m.last_accessed.0 <= 253402300799,
        time::is_instant(m.created_at.0, m.created_at.1),
        time::is_instant(m.updated_at.0, m.updated_at.1),
        time::is_instant(m.last_accessed.0, m.last_accessed.1),
    ensures
        has_plain_times(m),
{
}

/// Blobs are read as they are, and the time of the last change is that of the making where none is
/// noted.
pub proof fn lemma_time_of_last_change(r: MemoryRowV, now: (i64, u32), b: Vec<u8>)
    ensures
        opt_blob(Some(b)) == Some(b@),
        opt_blob(None) is None,
        r.updated_at is None ==> updated_of(r, now) == time::dt_of(r.created_at, now),
        r.updated_at matches Some(s) ==> (s.len() == 0 ==> updated_of(r, now) == time::dt_of(
            r.created_at,
            now,
        )),
        r.updated_at matches Some(s) ==> (s.len() > 0 ==> updated_of(r, now) == time::dt_of(s, now)),
{
}

} // verus!
