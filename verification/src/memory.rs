//! Memories: what the store keeps, and the rules for what it takes in.
use vstd::prelude::*;
use vstd::string::*;
use vstd::utf8::*;
use crate::bytes;
use crate::error::{ErrorV, IcmError, IcmResult};
use crate::ident;
use crate::text;
use crate::time;
use crate::time::Timestamp;

verus! {

/// A summary may take this many bytes.
pub const MAX_SUMMARY_BYTES: usize = 65536;

/// A topic may take this many bytes.
pub const MAX_TOPIC_BYTES: usize = 256;

/// The weight of a new memory: the bit pattern of one.
pub const FULL_WEIGHT: u32 = 0x3f80_0000;

// ---------------------------------------------------------------------------
// Importance
// ---------------------------------------------------------------------------

/// How much a memory matters.
#[derive(Clone, Copy, Debug, PartialEq, Eq, Structural)]
pub enum Importance {
    Critical,
    High,
    Medium,
    Low,
}

/// The text that stands for an importance in the database.
pub open spec fn importance_text(i: Importance) -> Seq<char> {
    match i {
        Importance::Critical => "critical"@,
        Importance::High => "high"@,
        Importance::Medium => "medium"@,
        Importance::Low => "low"@,
    }
}

/// The importance that a text stands for; a text that stands for none counts as medium.
pub open spec fn importance_of(s: Seq<char>) -> Importance {
    if s == "critical"@ {
        Importance::Critical
    } else if s == "high"@ {
        Importance::High
    } else if s == "low"@ {
        Importance::Low
    } else {
        Importance::Medium
    }
}

impl Importance {
    /// The text that stands for the importance in the database.
    pub fn text(&self) -> (r: String)
        ensures
            r@ == importance_text(*self),
    {
        match self {
            Importance::Critical => "critical".to_owned(),
            Importance::High => "high".to_owned(),
            Importance::Medium => "medium".to_owned(),
            Importance::Low => "low".to_owned(),
        }
    }

    /// The importance that a text stands for; a text that stands for none counts as medium.
    pub fn parse(s: &str) -> (r: Importance)
        ensures
            r == importance_of(s@),
    {
        if bytes::same_text(s, "critical") {
            Importance::Critical
        } else if bytes::same_text(s, "high") {
            Importance::High
        } else if bytes::same_text(s, "low") {
            Importance::Low
        } else {
            Importance::Medium
        }
    }
}

/// The text of an importance stands for that importance.
pub proof fn lemma_importance_reads_back(i: Importance)
    ensures
        importance_of(importance_text(i)) == i,
{
    reveal_strlit("critical");
    reveal_strlit("high");
    reveal_strlit("medium");
    reveal_strlit("low");
    assert("high"@[0] != "critical"@[0]);
    assert("low"@[0] != "critical"@[0] && "low"@[0] != "high"@[0]);
    assert("medium"@[0] != "critical"@[0] && "medium"@[0] != "high"@[0] && "medium"@[0] != "low"@[0]);
}

/// The rank of an importance: the higher, the more it matters.
pub open spec fn rank(i: Importance) -> u8 {
    match i {
        Importance::Critical => 4,
        Importance::High => 3,
        Importance::Medium => 2,
        Importance::Low => 1,
    }
}

/// The rank of an importance: the higher, the more it matters.
pub fn importance_rank(i: Importance) -> (r: u8)
    ensures
        r == rank(i),
{
    match i {
        Importance::Critical => 4,
        Importance::High => 3,
        Importance::Medium => 2,
        Importance::Low => 1,
    }
}

/// The one of two importances that matters more.
pub open spec fn higher(a: Importance, b: Importance) -> Importance {
    if rank(a) >= rank(b) {
        a
    } else {
        b
    }
}

/// The one of two importances that matters more.
pub fn max_importance(a: Importance, b: Importance) -> (r: Importance)
    ensures
        r == higher(a, b),
{
    if importance_rank(a) >= importance_rank(b) {
        a
    } else {
        b
    }
}

/// The higher of two importances is one of them, ranks below neither, and does not depend on
/// which comes first: storing again can raise an importance and never lowers it.
pub proof fn lemma_higher_is_maximum(a: Importance, b: Importance)
    ensures
        higher(a, b) == a || higher(a, b) == b,
        rank(higher(a, b)) >= rank(a),
        rank(higher(a, b)) >= rank(b),
        higher(a, b) == higher(b, a),
{
}

// ---------------------------------------------------------------------------
// Where a memory comes from, and who sees it
// ---------------------------------------------------------------------------

/// Where a memory comes from.
#[derive(Debug, PartialEq, Eq)]
pub enum MemorySource {
    ClaudeCode { session_id: String, file_path: Option<String> },
    Conversation { thread_id: String },
    Manual,
}

/// The mathematical reading of a source.
#[verifier::ext_equal]
pub enum SourceV {
    ClaudeCode { session_id: Seq<char>, file_path: Option<Seq<char>> },
    Conversation { thread_id: Seq<char> },
    Manual,
}

impl View for MemorySource {
    type V = SourceV;

    open spec fn view(&self) -> SourceV {
        match self {
            MemorySource::ClaudeCode { session_id, file_path } => SourceV::ClaudeCode {
                session_id: session_id@,
                file_path: text::opt_text(*file_path),
            },
            MemorySource::Conversation { thread_id } => SourceV::Conversation {
                thread_id: thread_id@,
            },
            MemorySource::Manual => SourceV::Manual,
        }
    }
}

impl Clone for MemorySource {
    fn clone(&self) -> (r: Self)
        ensures
            r@ == self@,
    {
        match self {
            MemorySource::ClaudeCode { session_id, file_path } => MemorySource::ClaudeCode {
                session_id: session_id.clone(),
                file_path: text::copy_opt(file_path),
            },
            MemorySource::Conversation { thread_id } => MemorySource::Conversation {
                thread_id: thread_id.clone(),
            },
            MemorySource::Manual => MemorySource::Manual,
        }
    }
}

/// The reading of an optional source.
pub open spec fn opt_source(s: Option<MemorySource>) -> Option<SourceV> {
    match s {
        Some(x) => Some(x@),
        None => None,
    }
}

/// The text that names the kind of a source.
pub open spec fn source_type_text(s: SourceV) -> Seq<char> {
    match s {
        SourceV::ClaudeCode { .. } => "claude_code"@,
        SourceV::Conversation { .. } => "conversation"@,
        SourceV::Manual => "manual"@,
    }
}

/// The text that names the kind of a source.
pub fn source_type(source: &MemorySource) -> (r: &'static str)
    ensures
        r@ == source_type_text(source@),
{
    match source {
        MemorySource::ClaudeCode { .. } => "claude_code",
        MemorySource::Conversation { .. } => "conversation",
        MemorySource::Manual => "manual",
    }
}

/// What is kept of a source beside its kind: nothing of a manual one.
pub open spec fn source_data_of(s: SourceV) -> Option<SourceV> {
    match s {
        SourceV::Manual => None,
        _ => Some(s),
    }
}

/// What is kept of a source beside its kind: nothing of a manual one.
pub fn source_data(source: &MemorySource) -> (r: Option<MemorySource>)
    ensures
        opt_source(r) == source_data_of(source@),
{
    match source {
        MemorySource::Manual => None,
        _ => Some(source.clone()),
    }
}

/// The source that a kind and the kept data stand for: manual unless both say otherwise.
pub open spec fn source_of(kind: Seq<char>, data: Option<SourceV>) -> SourceV {
    if kind == "manual"@ {
        SourceV::Manual
    } else {
        match data {
            Some(s) => s,
            None => SourceV::Manual,
        }
    }
}

/// The source that a kind and the kept data stand for: manual unless both say otherwise.
pub fn parse_source(kind: &str, data: &Option<MemorySource>) -> (r: MemorySource)
    ensures
        r@ == source_of(kind@, opt_source(*data)),
{
    if bytes::same_text(kind, "manual") {
        MemorySource::Manual
    } else {
        match data {
            Some(s) => s.clone(),
            None => MemorySource::Manual,
        }
    }
}

/// The kind and the kept data of a source stand for that source.
pub proof fn lemma_source_reads_back(s: SourceV)
    ensures
        source_of(source_type_text(s), source_data_of(s)) == s,
{
    reveal_strlit("claude_code");
    reveal_strlit("conversation");
    reveal_strlit("manual");
    assert("claude_code"@[0] != "manual"@[0]);
    assert("conversation"@[0] != "manual"@[0]);
}

/// Who sees a memory.
#[derive(Clone, Copy, Debug, PartialEq, Eq, Structural)]
pub enum Scope {
    User,
    Project,
    Org,
}

// ---------------------------------------------------------------------------
// Memories
// ---------------------------------------------------------------------------

/// One memory.
///
/// `weight` is the bit pattern of an IEEE 754 single, and so is each component of `embedding`.
#[derive(Debug)]
pub struct Memory {
    pub id: String,
    pub created_at: Timestamp,
    pub updated_at: Timestamp,
    pub last_accessed: Timestamp,
    pub access_count: u32,
    pub weight: u32,
    pub topic: String,
    pub summary: String,
    pub raw_excerpt: Option<String>,
    pub keywords: Vec<String>,
    pub importance: Importance,
    pub source: MemorySource,
    pub related_ids: Vec<String>,
    pub embedding: Option<Vec<u32>>,
    pub scope: Scope,
}

/// The mathematical reading of a memory.
#[verifier::ext_equal]
pub struct MemoryV {
    pub id: Seq<char>,
    pub created_at: (i64, u32),
    pub updated_at: (i64, u32),
    pub last_accessed: (i64, u32),
    pub access_count: u32,
    pub weight: u32,
    pub topic: Seq<char>,
    pub summary: Seq<char>,
    pub raw_excerpt: Option<Seq<char>>,
    pub keywords: Seq<Seq<char>>,
    pub importance: Importance,
    pub source: SourceV,
    pub related_ids: Seq<Seq<char>>,
    pub embedding: Option<Seq<u32>>,
    pub scope: Scope,
}

/// The components in an optional embedding.
pub open spec fn opt_vector(e: Option<Vec<u32>>) -> Option<Seq<u32>> {
    match e {
        Some(v) => Some(v@),
        None => None,
    }
}

impl View for Memory {
    type V = MemoryV;

    open spec fn view(&self) -> MemoryV {
        MemoryV {
            id: self.id@,
            created_at: self.created_at@,
            updated_at: self.updated_at@,
            last_accessed: self.last_accessed@,
            access_count: self.access_count,
            weight: self.weight,
            topic: self.topic@,
            summary: self.summary@,
            raw_excerpt: text::opt_text(self.raw_excerpt),
            keywords: text::texts(self.keywords@),
            importance: self.importance,
            source: self.source@,
            related_ids: text::texts(self.related_ids@),
            embedding: opt_vector(self.embedding),
            scope: self.scope,
        }
    }
}

/// A copy of a list of numbers.
fn copy_vector(v: &Vec<u32>) -> (r: Vec<u32>)
    ensures
        r@ == v@,
{
    let mut r: Vec<u32> = Vec::new();
    let mut i: usize = 0;
    while i < v.len()
        invariant
            i <= v@.len(),
            r@ == v@.take(i as int),
        decreases v@.len() - i,
    {
        r.push(v[i]);
        assert(r@ =~= v@.take(i + 1));
        i += 1;
    }
    assert(v@.take(v@.len() as int) =~= v@);
    r
}

impl Clone for Memory {
    fn clone(&self) -> (r: Self)
        ensures
            r@ == self@,
    {
        Memory {
            id: self.id.clone(),
            created_at: self.created_at,
            updated_at: self.updated_at,
            last_accessed: self.last_accessed,
            access_count: self.access_count,
            weight: self.weight,
            topic: self.topic.clone(),
            summary: self.summary.clone(),
            raw_excerpt: text::copy_opt(&self.raw_excerpt),
            keywords: text::copy_texts(&self.keywords),
            importance: self.importance,
            source: self.source.clone(),
            related_ids: text::copy_texts(&self.related_ids),
            embedding: match &self.embedding {
                Some(v) => Some(copy_vector(v)),
                None => None,
            },
            scope: self.scope,
        }
    }
}

impl Memory {
    /// A new memory, made now: of full weight, never accessed, written by hand.
    pub fn new(topic: String, summary: String, importance: Importance) -> (r: Memory)
        ensures
            exists|id: Seq<char>, now: (i64, u32)| #[trigger]
                fresh_memory(id, now, topic@, summary@, importance) == r@ && ident::is_id(id)
                    && time::is_clock_time(now),
    {
        let id = ident::new_id();
        let now = Timestamp::now();
        Memory::at(id, now, topic, summary, importance)
    }

    /// A new memory with the given identifier and time.
    pub fn at(
        id: String,
        now: Timestamp,
        topic: String,
        summary: String,
        importance: Importance,
    ) -> (r: Memory)
        ensures
            r@ == fresh_memory(id@, now@, topic@, summary@, importance),
    {
        let r = Memory {
            id,
            created_at: now,
            updated_at: now,
            last_accessed: now,
            access_count: 0,
            weight: FULL_WEIGHT,
            topic,
            summary,
            raw_excerpt: None,
            keywords: Vec::new(),
            importance,
            source: MemorySource::Manual,
            related_ids: Vec::new(),
            embedding: None,
            scope: Scope::User,
        };
        assert(text::texts(r.keywords@) =~= seq![]);
        assert(text::texts(r.related_ids@) =~= seq![]);
        r
    }
}

/// A new memory: of full weight, never accessed, written by hand.
pub open spec fn fresh_memory(
    id: Seq<char>,
    now: (i64, u32),
    topic: Seq<char>,
    summary: Seq<char>,
    importance: Importance,
) -> MemoryV {
    MemoryV {
        id,
        created_at: now,
        updated_at: now,
        last_accessed: now,
        access_count: 0,
        weight: FULL_WEIGHT,
        topic,
        summary,
        raw_excerpt: None,
        keywords: seq![],
        importance,
        source: SourceV::Manual,
        related_ids: seq![],
        embedding: None,
        scope: Scope::User,
    }
}

// ---------------------------------------------------------------------------
// Validation
// ---------------------------------------------------------------------------

/// Why a topic and a summary are not taken in, where they are not. The first rule that is broken
/// gives the reason.
pub open spec fn refusal(topic: Seq<char>, summary: Seq<char>) -> Option<Seq<char>> {
    if topic.len() == 0 {
        Some("topic cannot be empty"@)
    } else if text::trimmed(summary).len() == 0 {
        Some("summary cannot be empty"@)
    } else if topic.contains('\0') {
        Some("topic must not contain NUL bytes"@)
    } else if summary.contains('\0') {
        Some("summary must not contain NUL bytes"@)
    } else if topic.contains('\n') || topic.contains('\r') || topic.contains('\t') {
        Some("topic must not contain newline / CR / tab characters"@)
    } else if bytes::byte_len(topic) > MAX_TOPIC_BYTES {
        Some("topic exceeds 256 bytes"@)
    } else if bytes::byte_len(summary) > MAX_SUMMARY_BYTES {
        Some("summary exceeds 65536 bytes"@)
    } else {
        None
    }
}

/// The outcome of checking a topic and a summary.
pub open spec fn checks(r: IcmResult<()>, topic: Seq<char>, summary: Seq<char>) -> bool {
    match refusal(topic, summary) {
        Some(reason) => r matches Err(e) && e@ == ErrorV::InvalidInput(reason),
        None => r is Ok,
    }
}

fn refuse(reason: &str) -> (r: IcmResult<()>)
    ensures
        r matches Err(e) && e@ == ErrorV::InvalidInput(reason@),
{
    Err(IcmError::InvalidInput(reason.to_owned()))
}

/// Checks a topic and a summary.
pub fn validate_fields(topic: &str, summary: &str) -> (r: IcmResult<()>)
    ensures
        checks(r, topic@, summary@),
{
    if topic.is_empty() {
        return refuse("topic cannot be empty");
    }
    let trimmed = text::trim(summary);
    if trimmed.as_str().is_empty() {
        return refuse("summary cannot be empty");
    }
    if text::contains_char(topic, '\0') {
        return refuse("topic must not contain NUL bytes");
    }
    if text::contains_char(summary, '\0') {
        return refuse("summary must not contain NUL bytes");
    }
    if text::contains_char(topic, '\n') || text::contains_char(topic, '\r') || text::contains_char(
        topic,
        '\t',
    ) {
        return refuse("topic must not contain newline / CR / tab characters");
    }
    if topic.as_bytes().len() > MAX_TOPIC_BYTES {
        return refuse("topic exceeds 256 bytes");
    }
    if summary.as_bytes().len() > MAX_SUMMARY_BYTES {
        return refuse("summary exceeds 65536 bytes");
    }
    Ok(())
}

/// A memory with its topic trimmed.
pub open spec fn normalized(m: MemoryV) -> MemoryV {
    MemoryV { topic: text::trimmed(m.topic), ..m }
}

/// Trims the topic of a memory, and checks it.
pub fn validate_and_normalize(memory: Memory) -> (r: IcmResult<Memory>)
    ensures
        match refusal(text::trimmed(memory@.topic), memory@.summary) {
            Some(reason) => r matches Err(e) && e@ == ErrorV::InvalidInput(reason),
            None => r matches Ok(m) && m@ == normalized(memory@),
        },
{
    let mut memory = memory;
    let ghost before = memory@;
    memory.topic = text::trim(memory.topic.as_str());
    assert(memory@ == normalized(before));
    match validate_fields(memory.topic.as_str(), memory.summary.as_str()) {
        Ok(()) => Ok(memory),
        Err(e) => Err(e),
    }
}

/// A memory that was taken in has a trimmed topic, and would be taken in again unchanged.
pub proof fn lemma_normalized_is_stable(m: MemoryV)
    requires
        refusal(text::trimmed(m.topic), m.summary) is None,
    ensures
        normalized(normalized(m)) == normalized(m),
        refusal(text::trimmed(normalized(m).topic), normalized(m).summary) is None,
{
    text::lemma_trimmed_is_trimmed(m.topic);
}

// ---------------------------------------------------------------------------
// What a memory is made of
// ---------------------------------------------------------------------------

/// The reading of a memory has, field by field, what the memory has.
pub proof fn lemma_memory_is_read_field_by_field(m: Memory)
    ensures
        m@.id == m.id@,
        m@.created_at == m.created_at@,
        m@.updated_at == m.updated_at@,
        m@.last_accessed == m.last_accessed@,
        m@.access_count == m.access_count,
        m@.weight == m.weight,
        m@.topic == m.topic@,
        m@.summary == m.summary@,
        m@.raw_excerpt is Some == m.raw_excerpt is Some,
        m.raw_excerpt matches Some(s) ==> m@.raw_excerpt == Some(s@),
        m@.keywords.len() == m.keywords@.len(),
        forall|i: int| 0 <= i < m.keywords@.len() ==> #[trigger] m@.keywords[i] == m.keywords@[i]@,
        m@.importance == m.importance,
        m@.source is Manual == m.source is Manual,
        m.source matches MemorySource::Conversation { thread_id } ==> m@.source
            == (SourceV::Conversation { thread_id: thread_id@ }),
        m.source matches MemorySource::ClaudeCode { session_id, file_path } ==> (m@.source
            matches SourceV::ClaudeCode { session_id: s, file_path: f } && s == session_id@
            && f is Some == file_path is Some && (file_path matches Some(p) ==> f == Some(p@))),
        m@.related_ids.len() == m.related_ids@.len(),
        forall|i: int|
            0 <= i < m.related_ids@.len() ==> #[trigger] m@.related_ids[i] == m.related_ids@[i]@,
        m@.embedding is Some == m.embedding is Some,
        m.embedding matches Some(e) ==> m@.embedding == Some(e@),
        m@.scope == m.scope,
{
}

/// The texts of the importances are their names, and a text that is no other name counts as
/// medium.
pub proof fn lemma_importance_names(s: Seq<char>)
    ensures
        importance_text(Importance::Critical) == "critical"@,
        importance_text(Importance::High) == "high"@,
        importance_text(Importance::Medium) == "medium"@,
        importance_text(Importance::Low) == "low"@,
        (importance_of(s) == Importance::Critical) == (s == "critical"@),
        (importance_of(s) == Importance::High) == (s == "high"@),
        (importance_of(s) == Importance::Low) == (s == "low"@),
{
    lemma_importance_reads_back(Importance::Critical);
    lemma_importance_reads_back(Importance::High);
    lemma_importance_reads_back(Importance::Low);
}

/// Critical is the highest, then high, then medium, then low: of two importances the higher one
/// stays.
pub proof fn lemma_importances_in_order(i: Importance)
    ensures
        rank(Importance::Critical) > rank(Importance::High),
        rank(Importance::High) > rank(Importance::Medium),
        rank(Importance::Medium) > rank(Importance::Low),
        higher(i, i) == i,
        higher(Importance::Critical, i) == Importance::Critical,
        higher(i, Importance::Critical) == Importance::Critical,
        higher(Importance::High, Importance::Medium) == Importance::High,
        higher(Importance::Medium, Importance::High) == Importance::High,
        higher(Importance::Low, i) == i,
        higher(i, Importance::Low) == i,
{
}

/// The kinds of sources have their names; a source of another kind than manual is what is kept of
/// it, and manual where nothing is.
pub proof fn lemma_source_names(s: SourceV, kind: Seq<char>)
    ensures
        s is ClaudeCode ==> source_type_text(s) == "claude_code"@,
        s is Conversation ==> source_type_text(s) == "conversation"@,
        s is Manual ==> source_type_text(s) == "manual"@,
        source_data_of(s) is None == s is Manual,
        !(s is Manual) ==> source_data_of(s) == Some(s),
        kind != "manual"@ ==> source_of(kind, Some(s)) == s,
        source_of(kind, None) is Manual,
        source_of("manual"@, Some(s)) is Manual,
{
}

/// A new memory holds what it is given and nothing else: it has the full weight 1.0, was never
/// accessed, and all its times are the one at which it is made.
pub proof fn lemma_fresh_memory(
    id: Seq<char>,
    now: (i64, u32),
    topic: Seq<char>,
    summary: Seq<char>,
    importance: Importance,
)
    ensures
        ({
            let m = fresh_memory(id, now, topic, summary, importance);
            &&& m.id == id && m.topic == topic && m.summary == summary
            &&& m.importance == importance
            &&& m.created_at == now && m.updated_at == now && m.last_accessed == now
            &&& m.access_count == 0 && m.weight == 0x3f80_0000
            &&& m.raw_excerpt is None && m.keywords.len() == 0 && m.related_ids.len() == 0
            &&& m.source is Manual && m.embedding is None && m.scope == Scope::User
        }),
{
}

/// A memory is taken in exactly if its topic is not empty, its summary is not all white space,
/// neither holds a zero character, the topic holds no line break or tab, and they have at most 256
/// and 65536 bytes.
pub proof fn lemma_what_is_taken_in(topic: Seq<char>, summary: Seq<char>)
    ensures
        refusal(topic, summary) is None == {
            &&& topic.len() > 0
            &&& exists|i: int| 0 <= i < summary.len() && !text::is_white_space(#[trigger] summary[i])
            &&& !topic.contains('\0')
            &&& !summary.contains('\0')
            &&& !topic.contains('\n')
            &&& !topic.contains('\r')
            &&& !topic.contains('\t')
            &&& encode_utf8(topic).len() <= 256
            &&& encode_utf8(summary).len() <= 65536
        },
{
    lemma_blank(summary);
}

proof fn lemma_blank(s: Seq<char>)
    ensures
        (text::trimmed(s).len() > 0) == exists|i: int|
            0 <= i < s.len() && !text::is_white_space(#[trigger] s[i]),
{
    let r = text::lemma_trimming_takes_only_white_space(s);
    assert(text::trimmed(s).len() == r.1 - r.0);
    if r.0 < r.1 {
        assert(!text::is_white_space(s[r.0]));
    }
    if exists|i: int| 0 <= i < s.len() && !text::is_white_space(#[trigger] s[i]) {
        let i = choose|i: int| 0 <= i < s.len() && !text::is_white_space(#[trigger] s[i]);
        assert(r.0 <= i < r.1);
    }
}

/// Each reason is given for what it says, and where several things are wrong the first of them in
/// this order is named.
pub proof fn lemma_reasons(topic: Seq<char>, summary: Seq<char>)
    ensures
        ({
            let blank = forall|i: int|
                0 <= i < summary.len() ==> text::is_white_space(#[trigger] summary[i]);
            let r = refusal(topic, summary);
            &&& topic.len() == 0 ==> r == Some("topic cannot be empty"@)
            &&& topic.len() > 0 && blank ==> r == Some("summary cannot be empty"@)
            &&& topic.len() > 0 && !blank ==> {
                &&& topic.contains('\0') ==> r == Some("topic must not contain NUL bytes"@)
                &&& !topic.contains('\0') && summary.contains('\0') ==> r == Some(
                    "summary must not contain NUL bytes"@,
                )
                &&& !topic.contains('\0') && !summary.contains('\0') ==> {
                    let broken = topic.contains('\n') || topic.contains('\r') || topic.contains(
                        '\t',
                    );
                    &&& broken ==> r == Some(
                        "topic must not contain newline / CR / tab characters"@,
                    )
                    &&& !broken && encode_utf8(topic).len() > 256 ==> r == Some(
                        "topic exceeds 256 bytes"@,
                    )
                    &&& !broken && encode_utf8(topic).len() <= 256 && encode_utf8(summary).len()
                        > 65536 ==> r == Some("summary exceeds 65536 bytes"@)
                }
            }
        }),
{
    lemma_blank(summary);
}

/// Taking a memory in trims its topic and changes nothing else.
pub proof fn lemma_only_the_topic_is_trimmed(m: MemoryV)
    ensures
        normalized(m) == (MemoryV { topic: normalized(m).topic, ..m }),
        normalized(m).topic == text::trimmed(m.topic),
{
}

/// Optional sources and embeddings are read as they are.
pub proof fn lemma_options_are_read(s: MemorySource, v: Vec<u32>)
    ensures
        opt_source(Some(s)) == Some(s@),
        opt_source(None) is None,
        opt_vector(Some(v)) == Some(v@),
        opt_vector(None) is None,
{
}

/// A check succeeds exactly where nothing is to be said against the texts, and gives the reason
/// otherwise.
pub proof fn lemma_checks_give_reasons(r: IcmResult<()>, topic: Seq<char>, summary: Seq<char>)
    requires
        checks(r, topic, summary),
    ensures
        r is Ok == refusal(topic, summary) is None,
        r matches Err(e) ==> refusal(topic, summary) matches Some(reason) && e@
            == ErrorV::InvalidInput(reason),
{
}

} // verus!
