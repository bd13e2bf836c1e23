//! Facts: one value at a time for each key of an entity, with the values it had before.
use vstd::prelude::*;
use vstd::string::*;
use crate::bytes;
use crate::error::{ErrorV, IcmError, IcmResult};
use crate::order;
use crate::table;
use crate::text;
use crate::time::Timestamp;

verus! {

/// One value that a key of an entity has or had.
#[derive(Debug, PartialEq, Eq)]
pub struct Fact {
    pub id: String,
    pub entity: String,
    pub key: String,
    pub value: String,
    pub source: String,
    pub created_at: Timestamp,
    pub superseded_at: Option<Timestamp>,
}

/// The mathematical reading of a fact.
#[verifier::ext_equal]
pub struct FactV {
    pub id: Seq<char>,
    pub entity: Seq<char>,
    pub key: Seq<char>,
    pub value: Seq<char>,
    pub source: Seq<char>,
    pub created_at: (i64, u32),
    pub superseded_at: Option<(i64, u32)>,
}

/// The reading of an optional time.
pub open spec fn opt_time(t: Option<Timestamp>) -> Option<(i64, u32)> {
    match t {
        Some(x) => Some(x@),
        None => None,
    }
}

impl View for Fact {
    type V = FactV;

    open spec fn view(&self) -> FactV {
        FactV {
            id: self.id@,
            entity: self.entity@,
            key: self.key@,
            value: self.value@,
            source: self.source@,
            created_at: self.created_at@,
            superseded_at: opt_time(self.superseded_at),
        }
    }
}

impl FactV {
    /// The value is the one that the key has now.
    pub open spec fn is_active(self) -> bool {
        self.superseded_at is None
    }
}

impl Clone for Fact {
    fn clone(&self) -> (r: Self)
        ensures
            r@ == self@,
    {
        Fact {
            id: self.id.clone(),
            entity: self.entity.clone(),
            key: self.key.clone(),
            value: self.value.clone(),
            source: self.source.clone(),
            created_at: self.created_at,
            superseded_at: self.superseded_at,
        }
    }
}

impl Fact {
    /// Whether the value is the one that the key has now.
    pub fn is_active(&self) -> (r: bool)
        ensures
            r == self@.is_active(),
    {
        self.superseded_at.is_none()
    }
}

/// The table of facts.
pub struct Facts {
    rows: Vec<Fact>,
}

/// What holds of the table at all times: identifiers differ, and each key of an entity has at most
/// one value.
pub open spec fn is_table(rows: Seq<FactV>) -> bool {
    &&& forall|i: int, j: int|
        0 <= i < j < rows.len() ==> (#[trigger] rows[i]).id != (#[trigger] rows[j]).id
    &&& forall|i: int, j: int|
        0 <= i < j < rows.len() && (#[trigger] rows[i]).is_active() && (
        #[trigger] rows[j]).is_active() ==> !(rows[i].entity == rows[j].entity && rows[i].key
            == rows[j].key)
}

/// The row is of this key of this entity.
pub open spec fn is_slot(entity: Seq<char>, key: Seq<char>) -> spec_fn(FactV) -> bool {
    |r: FactV| r.entity == entity && r.key == key
}

/// The row holds the value that this key of this entity has now.
pub open spec fn is_current(entity: Seq<char>, key: Seq<char>) -> spec_fn(FactV) -> bool {
    |r: FactV| r.entity == entity && r.key == key && r.is_active()
}

/// The row is of another key or another entity.
pub open spec fn is_elsewhere(entity: Seq<char>, key: Seq<char>) -> spec_fn(FactV) -> bool {
    |r: FactV| !(r.entity == entity && r.key == key)
}

/// The row has this identifier.
pub open spec fn has_id(id: Seq<char>) -> spec_fn(FactV) -> bool {
    |r: FactV| r.id == id
}

/// The row holds what a key of the entity has now, a key that begins with the prefix where one is
/// given.
pub open spec fn is_listed(entity: Seq<char>, prefix: Option<Seq<char>>) -> spec_fn(FactV) -> bool {
    |r: FactV|
        r.entity == entity && r.is_active() && (prefix matches Some(p) ==> p.is_prefix_of(r.key))
}

/// The fact is the one that its key has now.
pub open spec fn active() -> spec_fn(FactV) -> bool {
    |r: FactV| r.is_active()
}

/// The fact is the one that a key of this entity has now.
pub open spec fn active_of(entity: Seq<char>) -> spec_fn(FactV) -> bool {
    |r: FactV| r.entity == entity && r.is_active()
}

/// The facts in the order of their keys' bytes.
pub open spec fn by_key(rows: Seq<FactV>) -> Seq<FactV> {
    order::picked(
        rows,
        order::ordered(rows.len(), order::by_text(rows.map_values(|r: FactV| r.key), false)),
    )
}

/// The fact with its time of supersession noted.
pub open spec fn superseded(r: FactV, now: (i64, u32)) -> FactV {
    FactV { superseded_at: Some(now), ..r }
}

/// A fact to be set.
#[verifier::ext_equal]
pub struct NewFactV {
    pub id: Seq<char>,
    pub entity: Seq<char>,
    pub key: Seq<char>,
    pub value: Seq<char>,
    pub source: Seq<char>,
}

/// The row of a fact that was set.
pub open spec fn row_of(f: NewFactV, now: (i64, u32)) -> FactV {
    FactV {
        id: f.id,
        entity: f.entity,
        key: f.key,
        value: f.value,
        source: f.source,
        created_at: now,
        superseded_at: None,
    }
}

/// The key has this value already.
pub open spec fn is_known(rows: Seq<FactV>, f: NewFactV) -> bool {
    table::find(rows, is_current(f.entity, f.key)) matches Some(i) && rows[i].value == f.value
}

/// Why a fact cannot be set, where it cannot.
pub open spec fn set_refusal(rows: Seq<FactV>, f: NewFactV) -> Option<ErrorV> {
    if f.entity.len() == 0 {
        Some(ErrorV::InvalidInput("entity cannot be empty"@))
    } else if f.key.len() == 0 {
        Some(ErrorV::InvalidInput("key cannot be empty"@))
    } else if !is_known(rows, f) && table::find(rows, has_id(f.id)) is Some {
        Some(ErrorV::Database("UNIQUE constraint failed: facts.id"@))
    } else {
        None
    }
}

/// The table after a fact was set: the value that the key had stays as history.
pub open spec fn rows_after_set(rows: Seq<FactV>, f: NewFactV, now: (i64, u32)) -> Seq<FactV> {
    if set_refusal(rows, f) is Some || is_known(rows, f) {
        rows
    } else {
        match table::find(rows, is_current(f.entity, f.key)) {
            Some(i) => rows.update(i, superseded(rows[i], now)).push(row_of(f, now)),
            None => rows.push(row_of(f, now)),
        }
    }
}

/// Numbers on the table of facts.
#[derive(Debug)]
pub struct FactsStats {
    pub active_count: usize,
    pub total_count: usize,
    pub distinct_entities: usize,
    pub top_entities: Vec<(String, usize)>,
}

/// The entities of the rows.
pub open spec fn entities(rows: Seq<FactV>) -> Seq<Seq<char>> {
    rows.map_values(|r: FactV| r.entity)
}

/// Each entity in the order of its bytes, with the number of its keys that have a value.
pub open spec fn entity_counts(rows: Seq<FactV>) -> Seq<(Seq<char>, nat)> {
    text::names(entities(rows)).map_values(
        |e: Seq<char>| (e, rows.filter(active_of(e)).len()),
    )
}

/// The readings of names with their counts.
pub open spec fn counted(v: Seq<(String, usize)>) -> Seq<(Seq<char>, nat)> {
    v.map_values(|p: (String, usize)| (p.0@, p.1 as nat))
}

impl Facts {
    /// The rows of the table, in the order in which they were set.
    pub closed spec fn rows(&self) -> Seq<FactV> {
        table::views(self.rows@)
    }

    /// What holds of the table at all times.
    pub open spec fn wf(&self) -> bool {
        is_table(self.rows())
    }

    /// An empty table.
    pub fn new() -> (r: Facts)
        ensures
            r.wf(),
            r.rows() == Seq::<FactV>::empty(),
    {
        let r = Facts { rows: Vec::new() };
        assert(r.rows() =~= Seq::<FactV>::empty());
        r
    }

    /// The table of the given rows, where they make one.
    pub fn from_rows(rows: Vec<Fact>) -> (r: Option<Facts>)
        ensures
            r is Some == is_table(table::views(rows@)),
            r matches Some(t) ==> t.rows() == table::views(rows@),
    {
        let ghost all = table::views(rows@);
        let mut j: usize = 0;
        while j < rows.len()
            invariant
                all == table::views(rows@),
                j <= rows@.len(),
                is_table(all.take(j as int)),
            decreases rows@.len() - j,
        {
            assert(all[j as int] == rows@[j as int]@);
            let mut i: usize = 0;
            while i < j
                invariant
                    all == table::views(rows@),
                    i <= j < rows@.len(),
                    all[j as int] == rows@[j as int]@,
                    forall|k: int|
                        0 <= k < i ==> (#[trigger] all[k]).id != all[j as int].id && !(
                        all[k].is_active() && all[j as int].is_active() && all[k].entity
                            == all[j as int].entity && all[k].key == all[j as int].key),
                decreases j - i,
            {
                assert(all[i as int] == rows@[i as int]@);
                if bytes::same_text(rows[i].id.as_str(), rows[j].id.as_str()) {
                    assert(!is_table(all));
                    return None;
                }
                if rows[i].is_active() && rows[j].is_active() && bytes::same_text(
                    rows[i].key.as_str(),
                    rows[j].key.as_str(),
                ) && bytes::same_text(rows[i].entity.as_str(), rows[j].entity.as_str()) {
                    assert(!is_table(all)) by {
                        assert(all[i as int].is_active() && all[j as int].is_active());
                    }
                    return None;
                }
                i += 1;
            }
            proof {
                let front = all.take(j as int);
                let next = all.take(j + 1);
                assert forall|a: int, b: int| 0 <= a < b < next.len() implies (#[trigger] next[a]).id
                    != (#[trigger] next[b]).id by {
                    if b < j {
                        assert(front[a].id != front[b].id);
                    }
                }
                assert forall|a: int, b: int|
                    0 <= a < b < next.len() && (#[trigger] next[a]).is_active() && (
                    #[trigger] next[b]).is_active() implies !(next[a].entity == next[b].entity
                    && next[a].key == next[b].key) by {
                    if b < j {
                        assert(front[a].is_active() && front[b].is_active());
                    }
                }
            }
            j += 1;
        }
        assert(all.take(all.len() as int) =~= all);
        Some(Facts { rows })
    }

    /// The number of rows.
    pub fn count(&self) -> (r: usize)
        ensures
            r == self.rows().len(),
    {
        self.rows.len()
    }

    /// The row at a position.
    pub fn row(&self, i: usize) -> (r: &Fact)
        requires
            i < self.rows().len(),
        ensures
            r@ == self.rows()[i as int],
    {
        &self.rows[i]
    }

    fn find_current(&self, entity: &str, key: &str) -> (r: Option<usize>)
        ensures
            match r {
                Some(i) => i < self.rows@.len() && table::find(
                    self.rows(),
                    is_current(entity@, key@),
                ) == Some(i as int),
                None => table::find(self.rows(), is_current(entity@, key@)) is None,
            },
    {
        let ghost p = is_current(entity@, key@);
        let mut i: usize = 0;
        while i < self.rows.len()
            invariant
                i <= self.rows@.len(),
                p == is_current(entity@, key@),
                forall|k: int| 0 <= k < i ==> !p(#[trigger] self.rows()[k]),
            decreases self.rows@.len() - i,
        {
            assert(self.rows()[i as int] == self.rows@[i as int]@);
            let row = &self.rows[i];
            if bytes::same_text(row.key.as_str(), key) && bytes::same_text(
                row.entity.as_str(),
                entity,
            ) && row.is_active() {
                proof {
                    table::lemma_found(self.rows(), p, i as int);
                }
                return Some(i);
            }
            i += 1;
        }
        proof {
            table::lemma_not_found(self.rows(), p);
        }
        None
    }

    fn has_row(&self, id: &str) -> (r: bool)
        ensures
            r == table::find(self.rows(), has_id(id@)) is Some,
    {
        let mut i: usize = 0;
        while i < self.rows.len()
            invariant
                i <= self.rows@.len(),
                forall|k: int| 0 <= k < i ==> (#[trigger] self.rows()[k]).id != id@,
            decreases self.rows@.len() - i,
        {
            assert(self.rows()[i as int] == self.rows@[i as int]@);
            if bytes::same_text(self.rows[i].id.as_str(), id) {
                proof {
                    table::lemma_found(self.rows(), has_id(id@), i as int);
                }
                return true;
            }
            i += 1;
        }
        proof {
            table::lemma_not_found(self.rows(), has_id(id@));
        }
        false
    }

    /// Sets the value of a key, and returns the identifier of its row. A value that the key has
    /// already makes no new row.
    pub fn set(
        &mut self,
        id: String,
        entity: &str,
        key: &str,
        value: &str,
        source: &str,
        now: Timestamp,
    ) -> (r: IcmResult<String>)
        requires
            old(self).wf(),
        ensures
            final(self).wf(),
            ({
                let f = NewFactV {
                    id: id@,
                    entity: entity@,
                    key: key@,
                    value: value@,
                    source: source@,
                };
                &&& final(self).rows() == rows_after_set(old(self).rows(), f, now@)
                &&& match set_refusal(old(self).rows(), f) {
                    Some(error) => r matches Err(e) && e@ == error,
                    None => r matches Ok(out) && out@ == if is_known(old(self).rows(), f) {
                        old(self).rows()[table::find(
                            old(self).rows(),
                            is_current(entity@, key@),
                        )->0].id
                    } else {
                        id@
                    },
                }
            }),
    {
        let ghost f = NewFactV {
            id: id@,
            entity: entity@,
            key: key@,
            value: value@,
            source: source@,
        };
        let ghost rows = self.rows();
        if entity.is_empty() {
            return Err(IcmError::InvalidInput("entity cannot be empty".to_owned()));
        }
        if key.is_empty() {
            return Err(IcmError::InvalidInput("key cannot be empty".to_owned()));
        }
        let current = self.find_current(entity, key);
        match current {
            Some(i) => {
                assert(rows[i as int] == self.rows@[i as int]@);
                if bytes::same_text(self.rows[i].value.as_str(), value) {
                    return Ok(self.rows[i].id.clone());
                }
            },
            None => {},
        }
        if self.has_row(id.as_str()) {
            return Err(IcmError::Database("UNIQUE constraint failed: facts.id".to_owned()));
        }
        proof {
            lemma_set_is_table(rows, f, now@);
        }
        match current {
            Some(i) => {
                self.rows[i].superseded_at = Some(now);
                assert(self.rows() =~= rows.update(i as int, superseded(rows[i as int], now@)));
            },
            None => {},
        }
        let ghost before = self.rows();
        let row = Fact {
            id: id.clone(),
            entity: entity.to_owned(),
            key: key.to_owned(),
            value: value.to_owned(),
            source: source.to_owned(),
            created_at: now,
            superseded_at: None,
        };
        let ghost new = row@;
        self.rows.push(row);
        assert(self.rows() =~= before.push(new));
        Ok(id)
    }

    /// The value that a key has now.
    pub fn get(&self, entity: &str, key: &str) -> (r: Option<Fact>)
        ensures
            match r {
                Some(f) => table::find(self.rows(), is_current(entity@, key@)) matches Some(i) && f@
                    == self.rows()[i],
                None => table::find(self.rows(), is_current(entity@, key@)) is None,
            },
    {
        match self.find_current(entity, key) {
            Some(i) => {
                assert(self.rows()[i as int] == self.rows@[i as int]@);
                Some(self.rows[i].clone())
            },
            None => None,
        }
    }

    /// All values that a key has or had, the latest first.
    pub fn history(&self, entity: &str, key: &str) -> (r: Vec<Fact>)
        ensures
            table::views(r@) == self.rows().filter(is_slot(entity@, key@)).reverse(),
    {
        let ghost rows = self.rows();
        let ghost p = is_slot(entity@, key@);
        let mut r: Vec<Fact> = Vec::new();
        let mut i: usize = self.rows.len();
        proof {
            reveal(Seq::filter);
            assert(table::views(r@) =~= rows.skip(i as int).filter(p).reverse());
        }
        while i > 0
            invariant
                rows == self.rows(),
                rows.len() == self.rows@.len(),
                i <= rows.len(),
                p == is_slot(entity@, key@),
                table::views(r@) == rows.skip(i as int).filter(p).reverse(),
            decreases i,
        {
            i -= 1;
            let row = &self.rows[i];
            let ghost rest = rows.skip(i + 1).filter(p);
            proof {
                assert(rows[i as int] == self.rows@[i as int]@);
                table::lemma_filter_first(rows.skip(i as int), p);
                assert(rows.skip(i as int).drop_first() =~= rows.skip(i + 1));
                assert(rows.skip(i as int)[0] == rows[i as int]);
            }
            if bytes::same_text(row.key.as_str(), key) && bytes::same_text(
                row.entity.as_str(),
                entity,
            ) {
                let copy = row.clone();
                let ghost before = table::views(r@);
                let ghost reading = copy@;
                r.push(copy);
                assert(table::views(r@) =~= before.push(reading));
                assert((seq![rows[i as int]] + rest).reverse() =~= rest.reverse().push(
                    rows[i as int],
                ));
            }
        }
        assert(rows.skip(0) =~= rows);
        r
    }

    /// What the keys of an entity have now, in the order of the keys' bytes: all of them, or those
    /// that begin with a prefix.
    pub fn list(&self, entity: &str, prefix: Option<&str>) -> (r: Vec<Fact>)
        ensures
            ({
                let p = text::opt_slice(prefix);
                table::views(r@) == by_key(self.rows().filter(is_listed(entity@, p)))
            }),
    {
        let ghost start = text::opt_slice(prefix);
        let ghost rows = self.rows();
        let ghost p = is_listed(entity@, start);
        let ghost hits = rows.filter(p);
        let mut at: Vec<usize> = Vec::new();
        let mut keys: Vec<&str> = Vec::new();
        let mut i: usize = 0;
        proof {
            reveal(Seq::filter);
            assert(order::picked(rows, order::positions(at@)) =~= rows.take(0).filter(p));
            assert(text::slices(keys@) =~= rows.take(0).filter(p).map_values(|r: FactV| r.key));
        }
        while i < self.rows.len()
            invariant
                rows == self.rows(),
                rows.len() == self.rows@.len(),
                start == text::opt_slice(prefix),
                p == is_listed(entity@, start),
                i <= rows.len(),
                forall|k: int| 0 <= k < at@.len() ==> #[trigger] at@[k] < rows.len(),
                order::picked(rows, order::positions(at@)) == rows.take(i as int).filter(p),
                text::slices(keys@) == rows.take(i as int).filter(p).map_values(|r: FactV| r.key),
            decreases rows.len() - i,
        {
            proof {
                reveal(Seq::filter);
                assert(rows[i as int] == self.rows@[i as int]@);
                assert(rows.take(i + 1).drop_last() =~= rows.take(i as int));
                assert(rows.take(i + 1).last() == rows[i as int]);
            }
            let row = &self.rows[i];
            let begins = match prefix {
                Some(s) => text::starts_with(row.key.as_str(), s),
                None => true,
            };
            if begins && row.is_active() && bytes::same_text(row.entity.as_str(), entity) {
                let ghost group = rows.take(i as int).filter(p);
                let ghost before = text::slices(keys@);
                let key = row.key.as_str();
                at.push(i);
                keys.push(key);
                proof {
                    assert(rows.take(i + 1).filter(p) == group.push(rows[i as int]));
                    assert(order::picked(rows, order::positions(at@)) =~= group.push(
                        rows[i as int],
                    ));
                    assert(text::slices(keys@) =~= before.push(key@));
                    assert(group.push(rows[i as int]).map_values(|r: FactV| r.key) =~= before.push(
                        key@,
                    ));
                }
            }
            i += 1;
        }
        assert(rows.take(i as int) =~= rows);
        let sorted = order::order_texts(&keys, false);
        assert(text::slices(keys@).len() == keys@.len());
        assert(hits.len() == at@.len());
        let ghost goal = by_key(hits);
        let mut r: Vec<Fact> = Vec::new();
        let mut k: usize = 0;
        assert(table::views(r@) =~= goal.take(0));
        while k < sorted.len()
            invariant
                rows == self.rows(),
                rows.len() == self.rows@.len(),
                forall|k: int| 0 <= k < at@.len() ==> #[trigger] at@[k] < rows.len(),
                hits == order::picked(rows, order::positions(at@)),
                k <= sorted@.len(),
                sorted@.len() == at@.len(),
                forall|i: int| 0 <= i < sorted@.len() ==> #[trigger] sorted@[i] < at@.len(),
                goal == order::picked(hits, order::positions(sorted@)),
                table::views(r@) == goal.take(k as int),
            decreases sorted@.len() - k,
        {
            let copy = self.rows[at[sorted[k]]].clone();
            let ghost before = table::views(r@);
            let ghost reading = copy@;
            assert(goal[k as int] == hits[sorted@[k as int] as int]);
            assert(reading == goal[k as int]);
            r.push(copy);
            assert(table::views(r@) =~= before.push(reading));
            assert(goal.take(k + 1) =~= goal.take(k as int).push(goal[k as int]));
            k += 1;
        }
        assert(goal.take(k as int) =~= goal);
        r
    }

    /// Removes all values that a key has or had, and returns how many there were.
    pub fn forget(&mut self, entity: &str, key: &str) -> (r: usize)
        requires
            old(self).wf(),
        ensures
            final(self).wf(),
            final(self).rows() == old(self).rows().filter(is_elsewhere(entity@, key@)),
            r + final(self).rows().len() == old(self).rows().len(),
    {
        let ghost rows = self.rows();
        let ghost keep = is_elsewhere(entity@, key@);
        let mut goes: Vec<bool> = Vec::new();
        while goes.len() < self.rows.len()
            invariant
                rows == self.rows(),
                rows.len() == self.rows@.len(),
                keep == is_elsewhere(entity@, key@),
                goes@.len() <= rows.len(),
                forall|i: int| 0 <= i < goes@.len() ==> #[trigger] goes@[i] == !keep(rows[i]),
            decreases rows.len() - goes@.len(),
        {
            let row = &self.rows[goes.len()];
            assert(rows[goes@.len() as int] == row@);
            goes.push(
                bytes::same_text(row.key.as_str(), key) && bytes::same_text(
                    row.entity.as_str(),
                    entity,
                ),
            );
        }
        let ghost f = |r: Fact| r@;
        assert(self.rows@.map_values(f) =~= rows);
        let gone = table::take_out::<Fact, FactV>(&mut self.rows, &goes, Ghost(f), Ghost(keep));
        proof {
            assert(self.rows() =~= self.rows@.map_values(f));
            lemma_filter_is_table(rows, keep);
        }
        gone.len()
    }

    fn count_active_of(&self, entity: &str) -> (r: usize)
        ensures
            r == self.rows().filter(active_of(entity@)).len(),
    {
        let ghost rows = self.rows();
        let ghost p = active_of(entity@);
        let mut n: usize = 0;
        let mut i: usize = 0;
        proof {
            reveal(Seq::filter);
            assert(rows.take(0).filter(p) =~= seq![]);
        }
        while i < self.rows.len()
            invariant
                rows == self.rows(),
                rows.len() == self.rows@.len(),
                p == active_of(entity@),
                i <= rows.len(),
                n <= i,
                n == rows.take(i as int).filter(p).len(),
            decreases rows.len() - i,
        {
            proof {
                reveal(Seq::filter);
                assert(rows[i as int] == self.rows@[i as int]@);
                assert(rows.take(i + 1).drop_last() =~= rows.take(i as int));
                assert(rows.take(i + 1).last() == rows[i as int]);
            }
            if bytes::same_text(self.rows[i].entity.as_str(), entity) && self.rows[i].is_active() {
                n += 1;
            }
            i += 1;
        }
        assert(rows.take(i as int) =~= rows);
        n
    }

    fn count_active(&self) -> (r: usize)
        ensures
            r == self.rows().filter(active()).len(),
    {
        let ghost rows = self.rows();
        let ghost p = active();
        let mut n: usize = 0;
        let mut i: usize = 0;
        proof {
            reveal(Seq::filter);
            assert(rows.take(0).filter(p) =~= seq![]);
        }
        while i < self.rows.len()
            invariant
                rows == self.rows(),
                rows.len() == self.rows@.len(),
                p == active(),
                i <= rows.len(),
                n <= i,
                n == rows.take(i as int).filter(p).len(),
            decreases rows.len() - i,
        {
            proof {
                reveal(Seq::filter);
                assert(rows[i as int] == self.rows@[i as int]@);
                assert(rows.take(i + 1).drop_last() =~= rows.take(i as int));
                assert(rows.take(i + 1).last() == rows[i as int]);
            }
            if self.rows[i].is_active() {
                n += 1;
            }
            i += 1;
        }
        assert(rows.take(i as int) =~= rows);
        n
    }

    /// Numbers on the table.
    pub fn stats(&self) -> (r: FactsStats)
        ensures
            r.active_count == self.rows().filter(active()).len(),
            r.total_count == self.rows().len(),
            r.distinct_entities == text::names(entities(self.rows())).len(),
            counted(r.top_entities@) == entity_counts(self.rows()),
    {
        let ghost rows = self.rows();
        let mut all: Vec<&str> = Vec::new();
        let mut i: usize = 0;
        assert(text::slices(all@) =~= entities(rows).take(0));
        while i < self.rows.len()
            invariant
                rows == self.rows(),
                rows.len() == self.rows@.len(),
                i <= rows.len(),
                text::slices(all@) == entities(rows).take(i as int),
            decreases rows.len() - i,
        {
            let entity = self.rows[i].entity.as_str();
            let ghost before = text::slices(all@);
            assert(rows[i as int] == self.rows@[i as int]@);
            all.push(entity);
            assert(text::slices(all@) =~= before.push(entity@));
            assert(entities(rows).take(i + 1) =~= entities(rows).take(i as int).push(
                entities(rows)[i as int],
            ));
            i += 1;
        }
        assert(entities(rows).take(i as int) =~= entities(rows));
        let names = text::sorted_names(&all);
        assert(text::texts(names@).len() == names@.len());
        let ghost goal = entity_counts(rows);
        let mut top: Vec<(String, usize)> = Vec::new();
        let mut k: usize = 0;
        assert(counted(top@) =~= goal.take(0));
        while k < names.len()
            invariant
                rows == self.rows(),
                k <= names@.len(),
                text::texts(names@) == text::names(entities(rows)),
                goal == entity_counts(rows),
                goal.len() == names@.len(),
                counted(top@) == goal.take(k as int),
            decreases names@.len() - k,
        {
            let n: usize = self.count_active_of(names[k].as_str());
            let ghost before = counted(top@);
            assert(text::texts(names@)[k as int] == names@[k as int]@);
            top.push((names[k].clone(), n));
            assert(counted(top@) =~= before.push((names@[k as int]@, n as nat)));
            assert(goal.take(k + 1) =~= goal.take(k as int).push(goal[k as int]));
            k += 1;
        }
        assert(goal.take(k as int) =~= goal);
        FactsStats {
            active_count: self.count_active(),
            total_count: self.rows.len(),
            distinct_entities: names.len(),
            top_entities: top,
        }
    }
}

proof fn lemma_filter_is_table(rows: Seq<FactV>, p: spec_fn(FactV) -> bool)
    requires
        is_table(rows),
    ensures
        is_table(rows.filter(p)),
{
    let at = table::filter_positions(rows, p);
    let out = rows.filter(p);
    assert forall|i: int, j: int| 0 <= i < j < out.len() implies (#[trigger] out[i]).id != (
    #[trigger] out[j]).id by {
        assert(at[i] < at[j]);
        assert(out[i] == rows[at[i]] && out[j] == rows[at[j]]);
    }
    assert forall|i: int, j: int|
        0 <= i < j < out.len() && (#[trigger] out[i]).is_active() && (
        #[trigger] out[j]).is_active() implies !(out[i].entity == out[j].entity && out[i].key
        == out[j].key) by {
        assert(at[i] < at[j]);
        assert(out[i] == rows[at[i]] && out[j] == rows[at[j]]);
    }
}

proof fn lemma_set_is_table(rows: Seq<FactV>, f: NewFactV, now: (i64, u32))
    requires
        is_table(rows),
        set_refusal(rows, f) is None,
        !is_known(rows, f),
    ensures
        is_table(rows_after_set(rows, f, now)),
{
    let p = is_current(f.entity, f.key);
    table::lemma_find(rows, has_id(f.id));
    table::lemma_find(rows, p);
    let out = rows_after_set(rows, f, now);
    assert forall|i: int| 0 <= i < rows.len() implies (#[trigger] out[i]).id == rows[i].id
        && out[i].entity == rows[i].entity && out[i].key == rows[i].key && (out[i].is_active()
        ==> rows[i].is_active() && !p(rows[i])) by {
        match table::find(rows, p) {
            Some(at) => {
                if i != at && p(rows[i]) {
                    if i < at {
                        assert(!p(rows[i]));
                    } else {
                        assert(rows[at].is_active() && rows[i].is_active());
                    }
                }
            },
            None => {
                assert(!p(rows[i]));
            },
        }
    }
    assert forall|i: int, j: int| 0 <= i < j < out.len() implies (#[trigger] out[i]).id != (
    #[trigger] out[j]).id by {
        if j == rows.len() {
            assert(!has_id(f.id)(rows[i]));
        } else {
            assert(rows[i].id != rows[j].id);
        }
    }
    assert forall|i: int, j: int|
        0 <= i < j < out.len() && (#[trigger] out[i]).is_active() && (
        #[trigger] out[j]).is_active() implies !(out[i].entity == out[j].entity && out[i].key
        == out[j].key) by {
        if j == rows.len() {
            assert(!p(rows[i]));
        } else {
            assert(rows[i].is_active() && rows[j].is_active());
        }
    }
}

/// A key has the value that was set last, and the history of the key holds the value before it.
pub proof fn lemma_set_then_get(rows: Seq<FactV>, f: NewFactV, now: (i64, u32))
    requires
        is_table(rows),
        set_refusal(rows, f) is None,
    ensures
        ({
            let out = rows_after_set(rows, f, now);
            &&& table::find(out, is_current(f.entity, f.key)) matches Some(i) && out[i].value
                == f.value
            &&& is_known(rows, f) ==> out == rows
            &&& !is_known(rows, f) ==> out.len() == rows.len() + 1 && out.last() == row_of(f, now)
            &&& forall|k: int|
                0 <= k < rows.len() ==> (#[trigger] out[k]).value == rows[k].value && out[k].id
                    == rows[k].id
        }),
{
    let p = is_current(f.entity, f.key);
    let out = rows_after_set(rows, f, now);
    table::lemma_find(rows, p);
    if !is_known(rows, f) {
        lemma_set_is_table(rows, f, now);
        assert(p(out[rows.len() as int]));
        assert forall|k: int| 0 <= k < rows.len() implies !p(#[trigger] out[k]) by {
            if p(out[k]) {
                assert(out[k].is_active() && out[rows.len() as int].is_active());
            }
        }
        assert(table::is_first(out, p, rows.len() as int));
        table::lemma_found(out, p, rows.len() as int);
    }
}

// ---------------------------------------------------------------------------
// What becomes of facts
// ---------------------------------------------------------------------------

/// Facts are read field by field.
pub proof fn lemma_fact_is_read_field_by_field(f: Fact)
    ensures
        f@.id == f.id@,
        f@.entity == f.entity@,
        f@.key == f.key@,
        f@.value == f.value@,
        f@.source == f.source@,
        f@.created_at == f.created_at@,
        f.superseded_at matches Some(t) ==> f@.superseded_at == Some(t@),
        f@.superseded_at is Some == f.superseded_at is Some,
{
}

/// A fact can be set exactly if its entity and key are not empty and, where it makes a new row, no
/// row has its identifier.
pub proof fn lemma_when_a_fact_can_be_set(rows: Seq<FactV>, f: NewFactV)
    requires
        forall|i: int| 0 <= i < rows.len() ==> (#[trigger] rows[i]).id != f.id,
    ensures
        f.entity.len() == 0 ==> set_refusal(rows, f) == Some(
            ErrorV::InvalidInput("entity cannot be empty"@),
        ),
        f.entity.len() > 0 && f.key.len() == 0 ==> set_refusal(rows, f) == Some(
            ErrorV::InvalidInput("key cannot be empty"@),
        ),
        f.entity.len() > 0 && f.key.len() > 0 ==> set_refusal(rows, f) is None,
{
    table::lemma_find(rows, has_id(f.id));
    if table::find(rows, has_id(f.id)) is Some {
        assert(has_id(f.id)(rows[table::find(rows, has_id(f.id))->0]));
    }
}

/// Setting a new value notes that the old one ended now, keeps it and every other row otherwise as
/// they are, and adds a row with exactly what was set.
pub proof fn lemma_setting_adds_and_supersedes(
    rows: Seq<FactV>,
    f: NewFactV,
    now: (i64, u32),
    k: int,
)
    requires
        is_table(rows),
        set_refusal(rows, f) is None,
        forall|i: int|
            0 <= i < rows.len() && (#[trigger] rows[i]).entity == f.entity && rows[i].key == f.key
                && rows[i].superseded_at is None ==> rows[i].value != f.value,
        0 <= k < rows.len(),
    ensures
        ({
            let out = rows_after_set(rows, f, now);
            let new = out[rows.len() as int];
            let ends = rows[k].entity == f.entity && rows[k].key == f.key
                && rows[k].superseded_at is None;
            &&& out.len() == rows.len() + 1
            &&& new.id == f.id && new.entity == f.entity && new.key == f.key
            &&& new.value == f.value && new.source == f.source
            &&& new.created_at == now && new.superseded_at is None
            &&& ends ==> out[k] == (FactV { superseded_at: Some(now), ..rows[k] })
            &&& !ends ==> out[k] == rows[k]
        }),
{
    let p = is_current(f.entity, f.key);
    table::lemma_find(rows, p);
    match table::find(rows, p) {
        Some(i) => {
            assert(p(rows[i]));
            assert(rows[i].value != f.value);
            if p(rows[k]) && k != i {
                if k < i {
                    assert(rows[k].is_active() && rows[i].is_active());
                } else {
                    assert(rows[i].is_active() && rows[k].is_active());
                }
            }
        },
        None => {
            assert(!p(rows[k]));
        },
    }
}

/// Setting the value that a key has changes nothing.
pub proof fn lemma_setting_the_same_changes_nothing(
    rows: Seq<FactV>,
    f: NewFactV,
    now: (i64, u32),
    i: int,
)
    requires
        is_table(rows),
        0 <= i < rows.len(),
        rows[i].entity == f.entity,
        rows[i].key == f.key,
        rows[i].superseded_at is None,
        rows[i].value == f.value,
    ensures
        rows_after_set(rows, f, now) == rows,
        is_known(rows, f),
{
    let p = is_current(f.entity, f.key);
    assert forall|j: int| 0 <= j < i implies !p(#[trigger] rows[j]) by {
        if p(rows[j]) {
            assert(rows[j].is_active() && rows[i].is_active());
        }
    }
    assert(table::is_first(rows, p, i));
    table::lemma_found(rows, p, i);
}

/// A key has the value of the one row of its entity that did not end; it has none where there is
/// no such row.
pub proof fn lemma_current_value(rows: Seq<FactV>, entity: Seq<char>, key: Seq<char>)
    ensures
        match table::find(rows, is_current(entity, key)) {
            Some(i) => 0 <= i < rows.len() && rows[i].entity == entity && rows[i].key == key
                && rows[i].superseded_at is None,
            None => forall|i: int|
                0 <= i < rows.len() && (#[trigger] rows[i]).entity == entity && rows[i].key == key
                    ==> rows[i].superseded_at is Some,
        },
{
    let p = is_current(entity, key);
    table::lemma_find(rows, p);
    if table::find(rows, p) is None {
        assert forall|i: int|
            0 <= i < rows.len() && (#[trigger] rows[i]).entity == entity && rows[i].key
                == key implies rows[i].superseded_at is Some by {
            assert(!p(rows[i]));
        }
    }
}

/// History is of the key of the entity, forgetting leaves everything else, and a list is of what
/// the entity's keys have now, those that begin with the prefix where one is given.
pub proof fn lemma_facts_are_found_exactly(
    rows: Seq<FactV>,
    entity: Seq<char>,
    key: Seq<char>,
    prefix: Seq<char>,
    r: FactV,
)
    ensures
        rows.filter(is_slot(entity, key)).contains(r) == (rows.contains(r) && r.entity == entity
            && r.key == key),
        rows.filter(is_elsewhere(entity, key)).contains(r) == (rows.contains(r) && (r.entity
            != entity || r.key != key)),
        rows.filter(is_listed(entity, None)).contains(r) == (rows.contains(r) && r.entity == entity
            && r.superseded_at is None),
        rows.filter(is_listed(entity, Some(prefix))).contains(r) == (rows.contains(r) && r.entity
            == entity && r.superseded_at is None && prefix.len() <= r.key.len() && r.key.take(
            prefix.len() as int,
        ) == prefix),
        rows.filter(active()).contains(r) == (rows.contains(r) && r.superseded_at is None),
        rows.filter(active_of(entity)).contains(r) == (rows.contains(r) && r.entity == entity
            && r.superseded_at is None),
{
    table::lemma_filter_members(rows, is_slot(entity, key), r);
    table::lemma_filter_members(rows, is_elsewhere(entity, key), r);
    table::lemma_filter_members(rows, is_listed(entity, None), r);
    table::lemma_filter_members(rows, is_listed(entity, Some(prefix)), r);
    table::lemma_filter_members(rows, active(), r);
    table::lemma_filter_members(rows, active_of(entity), r);
    if prefix.len() <= r.key.len() {
        assert(r.key.take(prefix.len() as int) =~= r.key.subrange(0, prefix.len() as int));
    }
}

/// A list of facts is in the order of the keys' bytes, and none is lost.
pub proof fn lemma_facts_by_key(rows: Seq<FactV>)
    ensures
        by_key(rows).len() == rows.len(),
        forall|i: int, j: int|
            0 <= i < j < rows.len() ==> !bytes::text_before(
                (#[trigger] by_key(rows)[j]).key,
                (#[trigger] by_key(rows)[i]).key,
            ),
        by_key(rows).to_multiset() == rows.to_multiset(),
{
    let keys = rows.map_values(|r: FactV| r.key);
    let before = order::by_text(keys, false);
    order::lemma_by_text_ranks(keys, false);
    order::lemma_ordered(rows.len(), before);
    let o = order::ordered(rows.len(), before);
    assert forall|i: int, j: int| 0 <= i < j < rows.len() implies !bytes::text_before(
        (#[trigger] by_key(rows)[j]).key,
        (#[trigger] by_key(rows)[i]).key,
    ) by {
        assert(!before(o[j], o[i]));
        assert(keys[o[i]] == rows[o[i]].key && keys[o[j]] == rows[o[j]].key);
    }
    order::lemma_picked_is_permutation(rows, o);
}

/// Facts that did not end are counted one by one, in all and for each entity, and each entity is
/// named once, in the order of bytes.
pub proof fn lemma_facts_are_counted(rows: Seq<FactV>, r: FactV, entity: Seq<char>)
    ensures
        rows.push(r).filter(active()).len() == rows.filter(active()).len() + (
        if r.superseded_at is None {
            1int
        } else {
            0
        }),
        rows.push(r).filter(active_of(entity)).len() == rows.filter(active_of(entity)).len() + (
        if r.superseded_at is None && r.entity == entity {
            1int
        } else {
            0
        }),
        Seq::<FactV>::empty().filter(active()).len() == 0,
        Seq::<FactV>::empty().filter(active_of(entity)).len() == 0,
        forall|k: int|
            0 <= k < entity_counts(rows).len() ==> (#[trigger] entity_counts(rows)[k]).1
                == rows.filter(active_of(entity_counts(rows)[k].0)).len(),
        forall|i: int|
            0 <= i < rows.len() ==> exists|k: int|
                0 <= k < entity_counts(rows).len() && (#[trigger] entity_counts(rows)[k]).0 == (
                #[trigger] rows[i]).entity,
        forall|k: int|
            0 <= k < entity_counts(rows).len() ==> exists|i: int|
                0 <= i < rows.len() && (#[trigger] rows[i]).entity == (
                #[trigger] entity_counts(rows)[k]).0,
        forall|k: int, j: int|
            0 <= k < j < entity_counts(rows).len() ==> bytes::text_before(
                (#[trigger] entity_counts(rows)[k]).0,
                (#[trigger] entity_counts(rows)[j]).0,
            ),
        entity_counts(rows).len() == text::names(entities(rows)).len(),
{
    reveal(Seq::filter);
    assert(rows.push(r).drop_last() =~= rows);
    let all = entities(rows);
    let found = text::names(all);
    text::lemma_names(all);
    assert forall|i: int| 0 <= i < rows.len() implies exists|k: int|
        0 <= k < entity_counts(rows).len() && (#[trigger] entity_counts(rows)[k]).0 == (
        #[trigger] rows[i]).entity by {
        assert(found.contains(all[i]));
        let k = choose|k: int| 0 <= k < found.len() && found[k] == all[i];
        assert(entity_counts(rows)[k].0 == rows[i].entity);
    }
    assert forall|k: int| 0 <= k < entity_counts(rows).len() implies exists|i: int|
        0 <= i < rows.len() && (#[trigger] rows[i]).entity == (
        #[trigger] entity_counts(rows)[k]).0 by {
        assert(all.contains(found[k]));
        let i = choose|i: int| 0 <= i < all.len() && all[i] == found[k];
        assert(rows[i].entity == entity_counts(rows)[k].0);
    }
    assert forall|k: int, j: int| 0 <= k < j < entity_counts(rows).len() implies bytes::text_before(
        (#[trigger] entity_counts(rows)[k]).0,
        (#[trigger] entity_counts(rows)[j]).0,
    ) by {
        assert(bytes::text_before(found[k], found[j]));
    }
}

/// Counts are read pair by pair, and times as they are.
pub proof fn lemma_counts_are_read_pair_by_pair(
    v: Seq<(String, usize)>,
    i: int,
    rows: Seq<FactV>,
    k: int,
    t: Timestamp,
)
    requires
        0 <= i < v.len(),
        0 <= k < rows.len(),
    ensures
        counted(v).len() == v.len(),
        counted(v)[i].0 == v[i].0@,
        counted(v)[i].1 == v[i].1,
        entities(rows).len() == rows.len(),
        entities(rows)[k] == rows[k].entity,
        opt_time(Some(t)) == Some(t@),
        opt_time(None) is None,
{
}

} // verus!
