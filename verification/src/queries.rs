//! Questions to the table of memories.
use vstd::prelude::*;
use vstd::string::*;
use crate::bytes;
use crate::error::{ErrorV, IcmError, IcmResult};
use crate::like;
use crate::memories::Memories;
use crate::memory::{Memory, MemoryV};
use crate::order;
use crate::row;
use crate::row::{MemoryRow, MemoryRowV};
use crate::table;
use crate::text;
use crate::time::Timestamp;

verus! {

/// A keyword search gives at most this many memories.
pub const MAX_SEARCH_RESULTS: usize = 100;

/// A pattern of more bytes than this is not matched with anything.
pub const MAX_PATTERN_BYTES: usize = 50000;

/// A number that orders weights: of two bit patterns of IEEE 754 singles, neither of them a NaN,
/// the one of the smaller single has the smaller number.
pub open spec fn weight_rank(bits: u32) -> i64 {
    if bits < 0x8000_0000 {
        bits as i64
    } else {
        (0x8000_0000 - bits) as i64
    }
}

/// A number that orders weights.
pub fn rank_of_weight(bits: u32) -> (r: i64)
    ensures
        r == weight_rank(bits),
{
    if bits < 0x8000_0000 {
        bits as i64
    } else {
        0x8000_0000i64 - bits as i64
    }
}

/// The number of results that a search for at most `limit` gives at most.
pub open spec fn search_limit(limit: usize) -> nat {
    if limit < MAX_SEARCH_RESULTS {
        limit as nat
    } else {
        MAX_SEARCH_RESULTS as nat
    }
}

/// The rows with the heaviest first; rows of equal weight keep their order.
pub open spec fn heaviest_first(rows: Seq<MemoryRowV>) -> Seq<MemoryRowV> {
    order::picked(
        rows,
        order::ordered(
            rows.len(),
            order::by_number(rows.map_values(|r: MemoryRowV| weight_rank(r.weight)), true),
        ),
    )
}

/// The memories that rows stand for.
pub open spec fn memories_of(rows: Seq<MemoryRowV>, now: (i64, u32)) -> Seq<MemoryV> {
    rows.map_values(|r: MemoryRowV| row::memory_of_row(r, now))
}

/// The memories are those that the rows stand for, as they are read at some time.
pub open spec fn are_readings(v: Seq<MemoryV>, rows: Seq<MemoryRowV>) -> bool {
    exists|now: (i64, u32)| #[trigger] memories_of(rows, now) == v
}

/// The row has this topic.
pub open spec fn in_topic(topic: Seq<char>) -> spec_fn(MemoryRowV) -> bool {
    |r: MemoryRowV| r.topic == topic
}

/// A topic pattern without the asterisk at its end.
pub open spec fn pattern_prefix(pattern: Seq<char>) -> Seq<char> {
    if pattern.len() > 0 && pattern.last() == '*' {
        pattern.drop_last()
    } else {
        pattern
    }
}

/// The topic of the row begins with this text.
pub open spec fn under_prefix(prefix: Seq<char>) -> spec_fn(MemoryRowV) -> bool {
    |r: MemoryRowV| prefix.is_prefix_of(r.topic)
}

/// The pattern that a keyword is searched with.
pub open spec fn keyword_pattern(keyword: Seq<char>) -> Seq<char> {
    seq!['%'] + like::escaped(keyword) + seq!['%']
}

/// The keyword stands in the keywords, the summary or the topic of the row.
pub open spec fn mentions(r: MemoryRowV, keyword: Seq<char>) -> bool {
    let p = keyword_pattern(keyword);
    ||| (r.keywords matches Some(k) && like::is_like(k, p, Some('\\')))
    ||| like::is_like(r.summary, p, Some('\\'))
    ||| like::is_like(r.topic, p, Some('\\'))
}

/// The row mentions one of the keywords.
pub open spec fn mentions_any(keywords: Seq<Seq<char>>) -> spec_fn(MemoryRowV) -> bool {
    |r: MemoryRowV| exists|k: int| 0 <= k < keywords.len() && mentions(r, #[trigger] keywords[k])
}

/// The pattern of the keyword is too long to be matched.
pub open spec fn is_too_long(keyword: Seq<char>) -> bool {
    bytes::byte_len(keyword_pattern(keyword)) > MAX_PATTERN_BYTES
}

/// The row is matched with a keyword that is too long: no keyword before it is mentioned.
pub open spec fn is_stuck(r: MemoryRowV, keywords: Seq<Seq<char>>) -> bool {
    exists|k: int|
        0 <= k < keywords.len() && is_too_long(#[trigger] keywords[k]) && mentions_none_before(
            r,
            keywords,
            k,
        )
}

/// The row mentions none of the keywords before the position `k`.
pub open spec fn mentions_none_before(r: MemoryRowV, keywords: Seq<Seq<char>>, k: int) -> bool {
    forall|j: int| 0 <= j < k ==> !mentions(r, #[trigger] keywords[j])
}

/// A search fails where a row is matched with a keyword that is too long.
pub open spec fn search_fails(rows: Seq<MemoryRowV>, keywords: Seq<Seq<char>>) -> bool {
    exists|i: int| 0 <= i < rows.len() && is_stuck(#[trigger] rows[i], keywords)
}

/// The topics of the rows.
pub open spec fn topics(rows: Seq<MemoryRowV>) -> Seq<Seq<char>> {
    rows.map_values(|r: MemoryRowV| r.topic)
}

/// Each topic in the order of its bytes, with the number of its rows.
pub open spec fn topic_counts(rows: Seq<MemoryRowV>) -> Seq<(Seq<char>, nat)> {
    text::names(topics(rows)).map_values(|t: Seq<char>| (t, rows.filter(in_topic(t)).len()))
}

/// The readings of topics with their counts.
pub open spec fn counted(v: Seq<(String, usize)>) -> Seq<(Seq<char>, nat)> {
    v.map_values(|p: (String, usize)| (p.0@, p.1 as nat))
}

/// The rows that a list of positions picks.
pub open spec fn rows_at(rows: Seq<MemoryRowV>, at: Seq<usize>) -> Seq<MemoryRowV> {
    order::picked(rows, order::positions(at))
}

/// Every position lies in the table.
pub open spec fn are_positions(at: Seq<usize>, n: nat) -> bool {
    forall|i: int| 0 <= i < at.len() ==> #[trigger] at[i] < n
}

proof fn lemma_pick_next(
    rows: Seq<MemoryRowV>,
    p: spec_fn(MemoryRowV) -> bool,
    i: int,
    at: Seq<usize>,
    next: usize,
)
    requires
        0 <= i < rows.len(),
        i == next,
        rows_at(rows, at) == rows.take(i).filter(p),
    ensures
        p(rows[i]) ==> rows_at(rows, at.push(next)) == rows.take(i + 1).filter(p),
        !p(rows[i]) ==> rows_at(rows, at) == rows.take(i + 1).filter(p),
{
    reveal(Seq::filter);
    assert(rows.take(i + 1).drop_last() =~= rows.take(i));
    assert(rows.take(i + 1).last() == rows[i]);
    if p(rows[i]) {
        assert(rows_at(rows, at.push(next)) =~= rows_at(rows, at).push(rows[i]));
    }
}

impl Memories {
    fn positions_in_topic(&self, topic: &str) -> (at: Vec<usize>)
        ensures
            rows_at(self.rows(), at@) == self.rows().filter(in_topic(topic@)),
            are_positions(at@, self.rows().len()),
    {
        let mut at: Vec<usize> = Vec::new();
        let mut i: usize = 0;
        let ghost rows = self.rows();
        proof {
            reveal(Seq::filter);
            assert(rows_at(rows, at@) =~= rows.take(0).filter(in_topic(topic@)));
        }
        while i < self.count()
            invariant
                rows == self.rows(),
                i <= rows.len(),
                are_positions(at@, rows.len()),
                rows_at(rows, at@) == rows.take(i as int).filter(in_topic(topic@)),
            decreases rows.len() - i,
        {
            proof {
                lemma_pick_next(rows, in_topic(topic@), i as int, at@, i);
            }
            if bytes::same_text(self.row(i).topic.as_str(), topic) {
                at.push(i);
            }
            i += 1;
        }
        assert(rows.take(rows.len() as int) =~= rows);
        at
    }

    fn positions_under_prefix(&self, prefix: &str) -> (at: Vec<usize>)
        ensures
            rows_at(self.rows(), at@) == self.rows().filter(under_prefix(prefix@)),
            are_positions(at@, self.rows().len()),
    {
        let mut at: Vec<usize> = Vec::new();
        let mut i: usize = 0;
        let ghost rows = self.rows();
        proof {
            reveal(Seq::filter);
            assert(rows_at(rows, at@) =~= rows.take(0).filter(under_prefix(prefix@)));
        }
        while i < self.count()
            invariant
                rows == self.rows(),
                i <= rows.len(),
                are_positions(at@, rows.len()),
                rows_at(rows, at@) == rows.take(i as int).filter(under_prefix(prefix@)),
            decreases rows.len() - i,
        {
            proof {
                lemma_pick_next(rows, under_prefix(prefix@), i as int, at@, i);
            }
            if text::starts_with(self.row(i).topic.as_str(), prefix) {
                at.push(i);
            }
            i += 1;
        }
        assert(rows.take(rows.len() as int) =~= rows);
        at
    }

    fn positions_mentioning(&self, keywords: &[&str]) -> (r: IcmResult<Vec<usize>>)
        ensures
            match r {
                Ok(at) => {
                    &&& !search_fails(self.rows(), text::slices(keywords@))
                    &&& rows_at(self.rows(), at@) == self.rows().filter(
                        mentions_any(text::slices(keywords@)),
                    )
                    &&& are_positions(at@, self.rows().len())
                },
                Err(e) => search_fails(self.rows(), text::slices(keywords@)) && e@
                    == ErrorV::Database("LIKE or GLOB pattern too complex"@),
            },
    {
        let ghost p = mentions_any(text::slices(keywords@));
        let patterns = patterns_of(keywords);
        let mut at: Vec<usize> = Vec::new();
        let mut i: usize = 0;
        let ghost rows = self.rows();
        proof {
            reveal(Seq::filter);
            assert(rows_at(rows, at@) =~= rows.take(0).filter(p));
        }
        while i < self.count()
            invariant
                rows == self.rows(),
                i <= rows.len(),
                p == mentions_any(text::slices(keywords@)),
                are_patterns(patterns@, text::slices(keywords@)),
                are_positions(at@, rows.len()),
                rows_at(rows, at@) == rows.take(i as int).filter(p),
                forall|j: int|
                    0 <= j < i ==> !is_stuck(#[trigger] rows[j], text::slices(keywords@)),
            decreases rows.len() - i,
        {
            proof {
                lemma_pick_next(rows, p, i as int, at@, i);
            }
            match is_mentioned(self.row(i), &patterns, Ghost(text::slices(keywords@))) {
                Ok(hit) => {
                    if hit {
                        at.push(i);
                    }
                },
                Err(e) => {
                    assert(is_stuck(rows[i as int], text::slices(keywords@)));
                    return Err(e);
                },
            }
            i += 1;
        }
        assert(rows.take(rows.len() as int) =~= rows);
        Ok(at)
    }

    /// The memories at these positions, the heaviest first, at most `limit` of them.
    fn heaviest(&self, at: &Vec<usize>, limit: usize, now: Timestamp) -> (r: Vec<Memory>)
        requires
            are_positions(at@, self.rows().len()),
        ensures
            table::views(r@) == memories_of(
                table::at_most(heaviest_first(rows_at(self.rows(), at@)), limit as nat),
                now@,
            ),
    {
        let ghost hits = rows_at(self.rows(), at@);
        let mut keys: Vec<i64> = Vec::new();
        let mut i: usize = 0;
        while i < at.len()
            invariant
                i <= at@.len(),
                hits == rows_at(self.rows(), at@),
                are_positions(at@, self.rows().len()),
                keys@ == hits.map_values(|r: MemoryRowV| weight_rank(r.weight)).take(i as int),
            decreases at@.len() - i,
        {
            let key = rank_of_weight(self.row(at[i]).weight);
            assert(hits[i as int] == self.rows()[at@[i as int] as int]);
            keys.push(key);
            assert(keys@ =~= hits.map_values(|r: MemoryRowV| weight_rank(r.weight)).take(i + 1));
            i += 1;
        }
        assert(keys@ =~= hits.map_values(|r: MemoryRowV| weight_rank(r.weight)));
        let sorted = order::order_numbers(&keys, true);
        let ghost wanted = heaviest_first(hits);
        let ghost goal = memories_of(table::at_most(wanted, limit as nat), now@);
        let mut r: Vec<Memory> = Vec::new();
        let mut k: usize = 0;
        assert(table::views(r@) =~= goal.take(0));
        while k < sorted.len() && k < limit
            invariant
                k <= sorted@.len(),
                k <= limit,
                hits == rows_at(self.rows(), at@),
                hits.len() == at@.len(),
                are_positions(at@, self.rows().len()),
                sorted@.len() == at@.len(),
                forall|i: int| 0 <= i < sorted@.len() ==> #[trigger] sorted@[i] < at@.len(),
                wanted.len() == sorted@.len(),
                wanted == order::picked(hits, order::positions(sorted@)),
                goal == memories_of(table::at_most(wanted, limit as nat), now@),
                table::views(r@) == goal.take(k as int),
            decreases sorted@.len() - k,
        {
            let m = row::row_to_memory(self.row(at[sorted[k]]), now);
            let ghost before = table::views(r@);
            let ghost reading = m@;
            assert(reading == goal[k as int]);
            r.push(m);
            assert(table::views(r@) =~= before.push(reading));
            assert(goal.take(k + 1) =~= goal.take(k as int).push(goal[k as int]));
            k += 1;
        }
        assert(goal.len() == k);
        assert(goal.take(k as int) =~= goal);
        r
    }

    /// The memories of a topic, the heaviest first.
    pub fn get_by_topic(&self, topic: &str, now: Timestamp) -> (r: Vec<Memory>)
        ensures
            table::views(r@) == memories_of(
                heaviest_first(self.rows().filter(in_topic(topic@))),
                now@,
            ),
    {
        let at = self.positions_in_topic(topic);
        let r = self.heaviest(&at, at.len(), now);
        proof {
            lemma_all_of_them(rows_at(self.rows(), at@));
        }
        r
    }
}

/// Whether the text stands among the first `n` of the list.
pub(crate) fn stands_before(v: &[&str], n: usize, s: &str) -> (r: bool)
    requires
        n <= v@.len(),
    ensures
        r == text::slices(v@).take(n as int).contains(s@),
{
    let ghost all = text::slices(v@).take(n as int);
    let mut i: usize = 0;
    while i < n
        invariant
            i <= n <= v@.len(),
            all == text::slices(v@).take(n as int),
            forall|k: int| 0 <= k < i ==> #[trigger] all[k] != s@,
        decreases n - i,
    {
        assert(all[i as int] == v@[i as int]@);
        if bytes::same_text(v[i], s) {
            return true;
        }
        i += 1;
    }
    false
}

impl Memories {
    /// The memories of all topics that begin as the pattern does; an asterisk at its end does not
    /// count. The heaviest come first.
    pub fn get_by_topic_prefix(&self, pattern: &str, now: Timestamp) -> (r: Vec<Memory>)
        ensures
            table::views(r@) == memories_of(
                heaviest_first(self.rows().filter(under_prefix(pattern_prefix(pattern@)))),
                now@,
            ),
    {
        let mut chars = text::chars_of(pattern);
        if chars.len() > 0 && chars[chars.len() - 1] == '*' {
            let _ = chars.pop();
        }
        assert(chars@ =~= pattern_prefix(pattern@));
        let prefix = text::text_of(chars.as_slice());
        let at = self.positions_under_prefix(prefix.as_str());
        let r = self.heaviest(&at, at.len(), now);
        proof {
            lemma_all_of_them(rows_at(self.rows(), at@));
        }
        r
    }

    /// The memories that mention one of the keywords, the heaviest first: at most `limit`, and at
    /// most `MAX_SEARCH_RESULTS`. It fails where a memory has to be matched with a keyword that is
    /// too long.
    pub fn search_by_keywords(
        &self,
        keywords: &[&str],
        limit: usize,
        now: Timestamp,
    ) -> (r: IcmResult<Vec<Memory>>)
        ensures
            match r {
                Ok(v) => {
                    &&& !search_fails(self.rows(), text::slices(keywords@))
                    &&& table::views(v@) == memories_of(
                        table::at_most(
                            heaviest_first(
                                self.rows().filter(mentions_any(text::slices(keywords@))),
                            ),
                            search_limit(limit),
                        ),
                        now@,
                    )
                },
                Err(e) => search_fails(self.rows(), text::slices(keywords@)) && e@
                    == ErrorV::Database("LIKE or GLOB pattern too complex"@),
            },
    {
        let at = match self.positions_mentioning(keywords) {
            Ok(at) => at,
            Err(e) => {
                return Err(e);
            },
        };
        let cap: usize = if limit < MAX_SEARCH_RESULTS {
            limit
        } else {
            MAX_SEARCH_RESULTS
        };
        Ok(self.heaviest(&at, cap, now))
    }

    /// The number of memories of a topic.
    pub fn count_by_topic(&self, topic: &str) -> (r: usize)
        ensures
            r == self.rows().filter(in_topic(topic@)).len(),
    {
        let at = self.positions_in_topic(topic);
        assert(rows_at(self.rows(), at@).len() == at@.len());
        at.len()
    }

    /// Each topic in the order of its bytes, with the number of its memories.
    pub fn list_topics(&self) -> (r: Vec<(String, usize)>)
        ensures
            counted(r@) == topic_counts(self.rows()),
    {
        let ghost rows = self.rows();
        let mut all: Vec<&str> = Vec::new();
        let mut i: usize = 0;
        assert(text::slices(all@) =~= topics(rows).take(0));
        while i < self.count()
            invariant
                rows == self.rows(),
                i <= rows.len(),
                text::slices(all@) == topics(rows).take(i as int),
            decreases rows.len() - i,
        {
            let ghost before = text::slices(all@);
            let topic = self.row(i).topic.as_str();
            all.push(topic);
            assert(text::slices(all@) =~= before.push(topic@));
            assert(topics(rows).take(i + 1) =~= topics(rows).take(i as int).push(
                topics(rows)[i as int],
            ));
            i += 1;
        }
        assert(topics(rows).take(rows.len() as int) =~= topics(rows));
        let names = text::sorted_names(&all);
        let ghost goal = topic_counts(rows);
        let mut r: Vec<(String, usize)> = Vec::new();
        let mut k: usize = 0;
        assert(counted(r@) =~= goal.take(0));
        while k < names.len()
            invariant
                rows == self.rows(),
                k <= names@.len(),
                text::texts(names@) == text::names(topics(rows)),
                goal == topic_counts(rows),
                counted(r@) == goal.take(k as int),
            decreases names@.len() - k,
        {
            let n: usize = self.count_by_topic(names[k].as_str());
            let ghost before = counted(r@);
            assert(text::texts(names@)[k as int] == names@[k as int]@);
            r.push((names[k].clone(), n));
            assert(counted(r@) =~= before.push((names@[k as int]@, n as nat)));
            assert(goal.take(k + 1) =~= goal.take(k as int).push(goal[k as int]));
            k += 1;
        }
        assert(text::texts(names@).len() == names@.len());
        assert(goal.take(k as int) =~= goal);
        r
    }
}

/// All rows in order are as many as the rows.
proof fn lemma_all_of_them(rows: Seq<MemoryRowV>)
    ensures
        table::at_most(heaviest_first(rows), rows.len()) == heaviest_first(rows),
{
    order::lemma_ordered_len(
        rows.len(),
        order::by_number(rows.map_values(|r: MemoryRowV| weight_rank(r.weight)), true),
    );
    assert(table::at_most(heaviest_first(rows), rows.len()) =~= heaviest_first(rows));
}

/// In the rows with the heaviest first, no row stands behind a lighter one.
pub proof fn lemma_heaviest_first(rows: Seq<MemoryRowV>)
    ensures
        heaviest_first(rows).len() == rows.len(),
        forall|i: int, j: int|
            0 <= i < j < rows.len() ==> weight_rank((#[trigger] heaviest_first(rows)[i]).weight)
                >= weight_rank((#[trigger] heaviest_first(rows)[j]).weight),
        heaviest_first(rows).to_multiset() == rows.to_multiset(),
{
    let keys = rows.map_values(|r: MemoryRowV| weight_rank(r.weight));
    let before = order::by_number(keys, true);
    order::lemma_by_number_ranks(keys, true);
    order::lemma_ordered(rows.len(), before);
    let o = order::ordered(rows.len(), before);
    assert forall|i: int, j: int| 0 <= i < j < rows.len() implies weight_rank(
        (#[trigger] heaviest_first(rows)[i]).weight,
    ) >= weight_rank((#[trigger] heaviest_first(rows)[j]).weight) by {
        assert(!before(o[j], o[i]));
        assert(keys[o[i]] == weight_rank(rows[o[i]].weight));
        assert(keys[o[j]] == weight_rank(rows[o[j]].weight));
    }
    order::lemma_picked_is_permutation(rows, o);
}

/// A keyword search finds exactly the memories in which a keyword stands literally, up to the case
/// of ASCII letters: no wildcard in a keyword acts as one.
pub proof fn lemma_mentions_is_literal(r: MemoryRowV, keyword: Seq<char>)
    ensures
        mentions(r, keyword) == {
            let k = like::folded(keyword);
            ||| (r.keywords matches Some(t) && text::has_part(like::folded(t), k))
            ||| text::has_part(like::folded(r.summary), k)
            ||| text::has_part(like::folded(r.topic), k)
        },
{
    match r.keywords {
        Some(t) => {
            like::lemma_escaped_keyword_is_literal(keyword, t);
        },
        None => {},
    }
    like::lemma_escaped_keyword_is_literal(keyword, r.summary);
    like::lemma_escaped_keyword_is_literal(keyword, r.topic);
}

/// The patterns that keywords are searched with.
pub open spec fn are_patterns(patterns: Seq<String>, keywords: Seq<Seq<char>>) -> bool {
    &&& patterns.len() == keywords.len()
    &&& forall|k: int|
        0 <= k < keywords.len() ==> (#[trigger] patterns[k])@ == keyword_pattern(keywords[k])
}

fn patterns_of(keywords: &[&str]) -> (r: Vec<String>)
    ensures
        are_patterns(r@, text::slices(keywords@)),
{
    let mut r: Vec<String> = Vec::new();
    let mut k: usize = 0;
    while k < keywords.len()
        invariant
            k <= keywords@.len(),
            r@.len() == k,
            forall|j: int|
                0 <= j < k ==> (#[trigger] r@[j])@ == keyword_pattern(
                    text::slices(keywords@)[j],
                ),
        decreases keywords@.len() - k,
    {
        let mut p = String::new();
        p.push('%');
        p.append(like::escape_like_wildcards(keywords[k]).as_str());
        p.push('%');
        assert(p@ =~= keyword_pattern(keywords@[k as int]@));
        r.push(p);
        k += 1;
    }
    r
}

fn is_mentioned(
    row: &MemoryRow,
    patterns: &Vec<String>,
    Ghost(keywords): Ghost<Seq<Seq<char>>>,
) -> (r: IcmResult<bool>)
    requires
        are_patterns(patterns@, keywords),
    ensures
        match r {
            Ok(hit) => !is_stuck(row@, keywords) && hit == mentions_any(keywords)(row@),
            Err(e) => is_stuck(row@, keywords) && e@ == ErrorV::Database(
                "LIKE or GLOB pattern too complex"@,
            ),
        },
{
    let mut k: usize = 0;
    while k < patterns.len()
        invariant
            k <= patterns@.len(),
            are_patterns(patterns@, keywords),
            forall|j: int|
                0 <= j < k ==> !mentions(row@, #[trigger] keywords[j]) && !is_too_long(keywords[j]),
        decreases patterns@.len() - k,
    {
        let p = patterns[k].as_str();
        assert(p@ == keyword_pattern(keywords[k as int]));
        if p.as_bytes().len() > MAX_PATTERN_BYTES {
            assert(is_too_long(keywords[k as int]) && mentions_none_before(row@, keywords, k as int));
            return Err(IcmError::Database("LIKE or GLOB pattern too complex".to_owned()));
        }
        let in_keywords = match &row.keywords {
            Some(text) => like::like(text.as_str(), p, Some('\\')),
            None => false,
        };
        if in_keywords || like::like(row.summary.as_str(), p, Some('\\')) || like::like(
            row.topic.as_str(),
            p,
            Some('\\'),
        ) {
            assert(mentions(row@, keywords[k as int]));
            return Ok(true);
        }
        k += 1;
    }
    Ok(false)
}

/// Weights are ranked as the numbers that their bits stand for: among positive ones more bits are
/// more weight, among negative ones less, a negative one is below every positive one, and the two
/// zeros are equal.
pub proof fn lemma_weight_rank_orders_weights(a: u32, b: u32)
    ensures
        a < b < 0x8000_0000 ==> weight_rank(a) < weight_rank(b),
        0x8000_0000 <= a < b ==> weight_rank(a) > weight_rank(b),
        a < 0x8000_0000 && 0x8000_0000 < b ==> weight_rank(b) < weight_rank(a),
        weight_rank(0x8000_0000) == weight_rank(0),
{
}

/// No memory stands before a heavier one, by the bits of their weights.
pub proof fn lemma_heavier_bits_come_first(rows: Seq<MemoryRowV>, i: int, j: int)
    requires
        0 <= i < j < rows.len(),
    ensures
        ({
            let a = heaviest_first(rows)[i].weight;
            let b = heaviest_first(rows)[j].weight;
            &&& a < 0x8000_0000 && b < 0x8000_0000 ==> a >= b
            &&& a >= 0x8000_0000 && b >= 0x8000_0000 ==> a <= b
            &&& a > 0x8000_0000 ==> b > 0x8000_0000
            &&& a == 0x8000_0000 && b < 0x8000_0000 ==> b == 0
        }),
        heaviest_first(rows).to_multiset() == rows.to_multiset(),
{
    lemma_heaviest_first(rows);
    let x = heaviest_first(rows)[i];
    let y = heaviest_first(rows)[j];
    assert(weight_rank(x.weight) >= weight_rank(y.weight));
}

/// A search gives as many memories as it is asked for, and never more than a hundred.
pub proof fn lemma_search_limit(limit: usize)
    ensures
        limit <= 100 ==> search_limit(limit) == limit,
        limit > 100 ==> search_limit(limit) == 100,
{
}

/// The memories of a topic are those that have this topic, letter for letter; they are counted one
/// by one.
pub proof fn lemma_topic_is_exact(rows: Seq<MemoryRowV>, topic: Seq<char>, r: MemoryRowV)
    ensures
        rows.filter(in_topic(topic)).contains(r) == (rows.contains(r) && r.topic == topic),
        Seq::<MemoryRowV>::empty().filter(in_topic(topic)).len() == 0,
        rows.push(r).filter(in_topic(topic)).len() == rows.filter(in_topic(topic)).len() + (
        if r.topic == topic {
            1int
        } else {
            0
        }),
{
    reveal(Seq::filter);
    table::lemma_filter_members(rows, in_topic(topic), r);
    assert(rows.push(r).drop_last() =~= rows);
}

/// The list of topics names each topic that a memory has, once, in the order of bytes, with the
/// number of its memories.
pub proof fn lemma_topics_are_counted(rows: Seq<MemoryRowV>)
    ensures
        forall|k: int|
            0 <= k < topic_counts(rows).len() ==> (#[trigger] topic_counts(rows)[k]).1
                == rows.filter(in_topic(topic_counts(rows)[k].0)).len(),
        forall|k: int|
            0 <= k < topic_counts(rows).len() ==> (#[trigger] topic_counts(rows)[k]).1 > 0,
        forall|i: int|
            0 <= i < rows.len() ==> exists|k: int|
                0 <= k < topic_counts(rows).len() && (#[trigger] topic_counts(rows)[k]).0 == (
                #[trigger] rows[i]).topic,
        forall|k: int, j: int|
            0 <= k < j < topic_counts(rows).len() ==> bytes::text_before(
                (#[trigger] topic_counts(rows)[k]).0,
                (#[trigger] topic_counts(rows)[j]).0,
            ),
{
    let all = topics(rows);
    let found = text::names(all);
    text::lemma_names(all);
    assert forall|k: int| 0 <= k < topic_counts(rows).len() implies (
    #[trigger] topic_counts(rows)[k]).1 > 0 by {
        assert(all.contains(found[k]));
        let i = choose|i: int| 0 <= i < all.len() && all[i] == found[k];
        table::lemma_filter_members(rows, in_topic(found[k]), rows[i]);
        assert(rows.contains(rows[i]));
        assert(rows.filter(in_topic(found[k])).contains(rows[i]));
    }
    assert forall|i: int| 0 <= i < rows.len() implies exists|k: int|
        0 <= k < topic_counts(rows).len() && (#[trigger] topic_counts(rows)[k]).0 == (
        #[trigger] rows[i]).topic by {
        assert(found.contains(all[i]));
        let k = choose|k: int| 0 <= k < found.len() && found[k] == all[i];
        assert(topic_counts(rows)[k].0 == rows[i].topic);
    }
    assert forall|k: int, j: int| 0 <= k < j < topic_counts(rows).len() implies bytes::text_before(
        (#[trigger] topic_counts(rows)[k]).0,
        (#[trigger] topic_counts(rows)[j]).0,
    ) by {
        assert(bytes::text_before(found[k], found[j]));
    }
}

/// A topic pattern stands for the topics that begin with it; an asterisk at its end changes
/// nothing.
pub proof fn lemma_pattern_is_a_beginning(
    rows: Seq<MemoryRowV>,
    prefix: Seq<char>,
    r: MemoryRowV,
)
    ensures
        rows.filter(under_prefix(pattern_prefix(prefix.push('*')))).contains(r) == (rows.contains(r)
            && prefix.len() <= r.topic.len() && r.topic.take(prefix.len() as int) == prefix),
        prefix.len() == 0 || prefix.last() != '*' ==> pattern_prefix(prefix) == prefix,
        pattern_prefix(prefix.push('*')) == prefix,
{
    assert(prefix.push('*').drop_last() =~= prefix);
    table::lemma_filter_members(rows, under_prefix(prefix), r);
    if prefix.len() <= r.topic.len() {
        assert(r.topic.take(prefix.len() as int) =~= r.topic.subrange(0, prefix.len() as int));
    }
}

/// A keyword is searched for as it stands, between any characters, and a memory is found by any
/// one of the keywords.
pub proof fn lemma_any_keyword_finds(
    r: MemoryRowV,
    a: Seq<Seq<char>>,
    b: Seq<Seq<char>>,
    keyword: Seq<char>,
)
    ensures
        keyword_pattern(keyword) == seq!['%'] + like::escaped(keyword) + seq!['%'],
        mentions_any(seq![keyword])(r) == mentions(r, keyword),
        mentions_any(a + b)(r) == (mentions_any(a)(r) || mentions_any(b)(r)),
        !mentions_any(Seq::empty())(r),
{
    let one = seq![keyword];
    if mentions(r, keyword) {
        assert(mentions(r, one[0]));
    }
    let s = a + b;
    if mentions_any(a)(r) {
        let k = choose|k: int| 0 <= k < a.len() && mentions(r, #[trigger] a[k]);
        assert(mentions(r, s[k]));
    }
    if mentions_any(b)(r) {
        let k = choose|k: int| 0 <= k < b.len() && mentions(r, #[trigger] b[k]);
        assert(mentions(r, s[a.len() + k]));
    }
    if mentions_any(s)(r) {
        let k = choose|k: int| 0 <= k < s.len() && mentions(r, #[trigger] s[k]);
        if k < a.len() {
            assert(mentions(r, a[k]));
        } else {
            assert(mentions(r, b[k - a.len()]));
        }
    }
}

/// A search does not fail where no pattern has more than 50000 bytes, and fails where there is a
/// memory and the first keyword has such a pattern.
pub proof fn lemma_long_patterns_fail(rows: Seq<MemoryRowV>, keywords: Seq<Seq<char>>)
    ensures
        (forall|k: int|
            0 <= k < keywords.len() ==> vstd::utf8::encode_utf8(
                seq!['%'] + like::escaped(#[trigger] keywords[k]) + seq!['%'],
            ).len() <= 50000) ==> !search_fails(rows, keywords),
        rows.len() > 0 && keywords.len() > 0 && vstd::utf8::encode_utf8(
            seq!['%'] + like::escaped(keywords[0]) + seq!['%'],
        ).len() > 50000 ==> search_fails(rows, keywords),
{
    if forall|k: int|
        0 <= k < keywords.len() ==> vstd::utf8::encode_utf8(
            seq!['%'] + like::escaped(#[trigger] keywords[k]) + seq!['%'],
        ).len() <= 50000 {
        assert forall|k: int| 0 <= k < keywords.len() implies !is_too_long(#[trigger] keywords[k]) by {
        }
    }
    if rows.len() > 0 && keywords.len() > 0 && vstd::utf8::encode_utf8(
        seq!['%'] + like::escaped(keywords[0]) + seq!['%'],
    ).len() > 50000 {
        assert(is_too_long(keywords[0]) && mentions_none_before(rows[0], keywords, 0));
        assert(is_stuck(rows[0], keywords));
    }
}

/// Memories are read row by row, topics and counts likewise.
pub proof fn lemma_rows_are_read_one_by_one(
    rows: Seq<MemoryRowV>,
    now: (i64, u32),
    v: Seq<(String, usize)>,
    at: Seq<usize>,
    i: int,
)
    ensures
        memories_of(rows, now).len() == rows.len(),
        0 <= i < rows.len() ==> memories_of(rows, now)[i] == row::memory_of_row(rows[i], now),
        topics(rows).len() == rows.len(),
        0 <= i < rows.len() ==> topics(rows)[i] == rows[i].topic,
        counted(v).len() == v.len(),
        0 <= i < v.len() ==> counted(v)[i] == (v[i].0@, v[i].1 as nat),
        rows_at(rows, at).len() == at.len(),
        0 <= i < at.len() ==> rows_at(rows, at)[i] == rows[at[i] as int],
{
}

/// Memories that are readings of rows are as many, and each is what its row gives at one time.
pub proof fn lemma_readings_are_of_the_rows(v: Seq<MemoryV>, rows: Seq<MemoryRowV>, i: int)
    requires
        are_readings(v, rows),
        0 <= i < rows.len(),
    ensures
        v.len() == rows.len(),
        v[i].id == rows[i].id,
        v[i].topic == rows[i].topic,
        v[i].summary == rows[i].summary,
        v[i].weight == rows[i].weight,
        v[i].access_count == rows[i].access_count,
{
    let now = choose|now: (i64, u32)| #[trigger] memories_of(rows, now) == v;
    assert(v[i] == row::memory_of_row(rows[i], now));
}

} // verus!
