//! The memories that were read last, kept at hand.
use std::num::NonZeroUsize;
use vstd::prelude::*;
use crate::memory::{Memory, MemoryV};
use crate::table;
use crate::text;

verus! {

/// At most this many memories are kept at hand.
pub const MEMORY_CACHE_CAP: usize = 256;

/// `lru::LruCache`: what it holds is named by `cache_entries` and `cache_cap`.
#[verifier::external_type_specification]
#[verifier::external_body]
#[verifier::reject_recursive_types(K)]
#[verifier::reject_recursive_types(V)]
#[verifier::reject_recursive_types(S)]
pub struct ExLruCache<K, V, S>(lru::LruCache<K, V, S>);

/// `lru::DefaultHasher`: it stands in the type of a cache, and nothing is claimed of it.
#[verifier::external_type_specification]
#[verifier::external_body]
pub struct ExDefaultHasher(lru::DefaultHasher);

/// The entries of a cache, the one that was used last first.
pub uninterp spec fn cache_entries(c: lru::LruCache<String, Memory>) -> Seq<(Seq<char>, MemoryV)>;

/// The number of entries that a cache holds at most.
pub uninterp spec fn cache_cap(c: lru::LruCache<String, Memory>) -> nat;

/// The entry has another key.
pub open spec fn has_other_key(key: Seq<char>) -> spec_fn((Seq<char>, MemoryV)) -> bool {
    |e: (Seq<char>, MemoryV)| e.0 != key
}

/// The entries with other keys.
pub open spec fn without_key(
    entries: Seq<(Seq<char>, MemoryV)>,
    key: Seq<char>,
) -> Seq<(Seq<char>, MemoryV)> {
    entries.filter(has_other_key(key))
}

/// The entry has none of these keys.
pub open spec fn has_none_of(keys: Seq<Seq<char>>) -> spec_fn((Seq<char>, MemoryV)) -> bool {
    |e: (Seq<char>, MemoryV)| !keys.contains(e.0)
}

/// The entries that have none of these keys.
pub open spec fn without_keys(
    entries: Seq<(Seq<char>, MemoryV)>,
    keys: Seq<Seq<char>>,
) -> Seq<(Seq<char>, MemoryV)> {
    entries.filter(has_none_of(keys))
}

/// The entry has this key.
pub open spec fn has_key(key: Seq<char>) -> spec_fn((Seq<char>, MemoryV)) -> bool {
    |e: (Seq<char>, MemoryV)| e.0 == key
}

/// The position of the entry with a key.
pub open spec fn key_at(entries: Seq<(Seq<char>, MemoryV)>, key: Seq<char>) -> Option<int> {
    table::find(entries, has_key(key))
}

/// The entries after the one with a key was used: it stands first.
pub open spec fn after_get(
    entries: Seq<(Seq<char>, MemoryV)>,
    key: Seq<char>,
) -> Seq<(Seq<char>, MemoryV)> {
    match key_at(entries, key) {
        Some(i) => seq![entries[i]] + without_key(entries, key),
        None => entries,
    }
}

/// The entries after one was put in: it stands first, in the place of one with the same key or,
/// where the cache was full, of the one that was not used for the longest time.
pub open spec fn after_put(
    entries: Seq<(Seq<char>, MemoryV)>,
    cap: nat,
    key: Seq<char>,
    value: MemoryV,
) -> Seq<(Seq<char>, MemoryV)> {
    if key_at(entries, key) is Some {
        seq![(key, value)] + without_key(entries, key)
    } else if entries.len() == cap {
        seq![(key, value)] + entries.drop_last()
    } else {
        seq![(key, value)] + entries
    }
}

/// `lru::LruCache::new`: an empty cache for `cap` entries.
#[verifier::external_body]
fn lru_new(cap: usize) -> (c: lru::LruCache<String, Memory>)
    requires
        cap > 0,
    ensures
        cache_entries(c) == Seq::<(Seq<char>, MemoryV)>::empty(),
        cache_cap(c) == cap,
{
    lru::LruCache::new(NonZeroUsize::new(cap).expect("a cache holds at least one entry"))
}

/// `lru::LruCache::get`: the value of a key, which becomes the one that was used last.
#[verifier::external_body]
fn lru_get<'a>(c: &'a mut lru::LruCache<String, Memory>, key: &str) -> (r: Option<&'a Memory>)
    ensures
        cache_entries(*final(c)) == after_get(cache_entries(*old(c)), key@),
        cache_cap(*final(c)) == cache_cap(*old(c)),
        match r {
            Some(m) => key_at(cache_entries(*old(c)), key@) matches Some(i) && m@ == cache_entries(
                *old(c),
            )[i].1,
            None => key_at(cache_entries(*old(c)), key@) is None,
        },
{
    c.get(key)
}

/// `lru::LruCache::put`: sets the value of a key, which becomes the one that was used last.
#[verifier::external_body]
fn lru_put(c: &mut lru::LruCache<String, Memory>, key: String, value: Memory)
    ensures
        cache_entries(*final(c)) == after_put(
            cache_entries(*old(c)),
            cache_cap(*old(c)),
            key@,
            value@,
        ),
        cache_cap(*final(c)) == cache_cap(*old(c)),
{
    c.put(key, value);
}

/// `lru::LruCache::pop`: removes the entry of a key.
#[verifier::external_body]
fn lru_pop(c: &mut lru::LruCache<String, Memory>, key: &str)
    ensures
        cache_entries(*final(c)) == without_key(cache_entries(*old(c)), key@),
        cache_cap(*final(c)) == cache_cap(*old(c)),
{
    c.pop(key);
}

/// `lru::LruCache::clear`: removes all entries.
#[verifier::external_body]
fn lru_clear(c: &mut lru::LruCache<String, Memory>)
    ensures
        cache_entries(*final(c)) == Seq::<(Seq<char>, MemoryV)>::empty(),
        cache_cap(*final(c)) == cache_cap(*old(c)),
{
    c.clear();
}

/// The memories that were read last.
pub struct Cache {
    inner: lru::LruCache<String, Memory>,
}

/// No two entries have the same key.
pub open spec fn distinct_keys(entries: Seq<(Seq<char>, MemoryV)>) -> bool {
    forall|i: int, j: int|
        0 <= i < j < entries.len() ==> (#[trigger] entries[i]).0 != (#[trigger] entries[j]).0
}

/// What holds of a cache at all times: it keeps memories under their own identifiers, each once,
/// and no more than it may.
pub open spec fn is_cache(entries: Seq<(Seq<char>, MemoryV)>) -> bool {
    &&& distinct_keys(entries)
    &&& entries.len() <= MEMORY_CACHE_CAP
    &&& forall|i: int| 0 <= i < entries.len() ==> (#[trigger] entries[i]).0 == entries[i].1.id
}

/// Every entry of the first cache is one of the second.
pub open spec fn is_part_of(
    part: Seq<(Seq<char>, MemoryV)>,
    whole: Seq<(Seq<char>, MemoryV)>,
) -> bool {
    forall|i: int| 0 <= i < part.len() ==> whole.contains(#[trigger] part[i])
}

proof fn lemma_without_key(entries: Seq<(Seq<char>, MemoryV)>, key: Seq<char>)
    requires
        is_cache(entries),
    ensures
        is_cache(without_key(entries, key)),
        is_part_of(without_key(entries, key), entries),
        forall|i: int|
            0 <= i < without_key(entries, key).len() ==> (#[trigger] without_key(entries, key)[i]).0
                != key,
        key_at(entries, key) is Some ==> without_key(entries, key).len() < entries.len(),
{
    let other = has_other_key(key);
    let out = without_key(entries, key);
    let at = table::filter_positions(entries, other);
    assert forall|i: int| 0 <= i < out.len() implies entries.contains(#[trigger] out[i]) && out[i].0
        != key && out[i].0 == out[i].1.id by {
        assert(out[i] == entries[at[i]]);
    }
    assert forall|i: int, j: int| 0 <= i < j < out.len() implies (#[trigger] out[i]).0 != (
    #[trigger] out[j]).0 by {
        assert(at[i] < at[j]);
        assert(out[i] == entries[at[i]] && out[j] == entries[at[j]]);
    }
    table::lemma_filter_keeps_all(entries, other);
    table::lemma_find(entries, has_key(key));
    if key_at(entries, key) is Some {
        let k = key_at(entries, key)->0;
        if out.len() == entries.len() {
            assert(out == entries);
            assert(out[k].0 != key);
        }
    }
}

proof fn lemma_without_next(
    entries: Seq<(Seq<char>, MemoryV)>,
    keys: Seq<Seq<char>>,
    key: Seq<char>,
)
    ensures
        without_key(without_keys(entries, keys), key) == without_keys(entries, keys.push(key)),
    decreases entries.len(),
{
    reveal(Seq::filter);
    if entries.len() > 0 {
        let front = entries.drop_last();
        let e = entries.last();
        lemma_without_next(front, keys, key);
        assert(has_none_of(keys.push(key))(e) == (has_none_of(keys)(e) && has_other_key(key)(e))) by {
            if keys.contains(e.0) {
                let i = choose|i: int| 0 <= i < keys.len() && keys[i] == e.0;
                assert(keys.push(key)[i] == e.0);
            }
            assert(keys.push(key)[keys.len() as int] == key);
        }
        if has_none_of(keys)(e) {
            let kept = without_keys(front, keys);
            assert(without_keys(entries, keys) == kept.push(e));
            assert(kept.push(e).drop_last() =~= kept);
        }
    }
}

/// Without one key is without the keys of a list of one.
pub proof fn lemma_without_one(entries: Seq<(Seq<char>, MemoryV)>, key: Seq<char>)
    ensures
        without_keys(entries, seq![key]) == without_key(entries, key),
{
    let none = Seq::<Seq<char>>::empty();
    table::lemma_filter_all_pass(entries, has_none_of(none));
    lemma_without_next(entries, none, key);
    assert(none.push(key) =~= seq![key]);
}

proof fn lemma_put_first(
    e: (Seq<char>, MemoryV),
    rest: Seq<(Seq<char>, MemoryV)>,
)
    requires
        is_cache(rest),
        rest.len() < MEMORY_CACHE_CAP,
        e.0 == e.1.id,
        forall|i: int| 0 <= i < rest.len() ==> (#[trigger] rest[i]).0 != e.0,
    ensures
        is_cache(seq![e] + rest),
{
    let out = seq![e] + rest;
    assert forall|i: int, j: int| 0 <= i < j < out.len() implies (#[trigger] out[i]).0 != (
    #[trigger] out[j]).0 by {
        assert(out[j] == rest[j - 1]);
        if i > 0 {
            assert(out[i] == rest[i - 1]);
        }
    }
    assert forall|i: int| 0 <= i < out.len() implies (#[trigger] out[i]).0 == out[i].1.id by {
        if i > 0 {
            assert(out[i] == rest[i - 1]);
        }
    }
}

impl Cache {
    /// The entries, the one that was used last first.
    pub closed spec fn entries(&self) -> Seq<(Seq<char>, MemoryV)> {
        cache_entries(self.inner)
    }

    /// The cache was made for as many entries as it should hold.
    pub closed spec fn has_cap(&self) -> bool {
        cache_cap(self.inner) == MEMORY_CACHE_CAP
    }

    /// What holds of the cache at all times.
    pub open spec fn wf(&self) -> bool {
        &&& is_cache(self.entries())
        &&& self.has_cap()
    }

    /// An empty cache.
    pub fn new() -> (r: Cache)
        ensures
            r.wf(),
            r.entries() == Seq::<(Seq<char>, MemoryV)>::empty(),
    {
        Cache { inner: lru_new(MEMORY_CACHE_CAP) }
    }

    /// The memory that is kept under an identifier.
    pub fn get(&mut self, id: &str) -> (r: Option<Memory>)
        requires
            old(self).wf(),
        ensures
            final(self).wf(),
            final(self).entries() == after_get(old(self).entries(), id@),
            is_part_of(final(self).entries(), old(self).entries()),
            match r {
                Some(m) => key_at(old(self).entries(), id@) matches Some(i) && m@ == old(
                    self,
                ).entries()[i].1,
                None => key_at(old(self).entries(), id@) is None,
            },
    {
        let ghost e = self.entries();
        let ghost holds = has_key(id@);
        proof {
            table::lemma_find(e, holds);
            lemma_without_key(e, id@);
            match key_at(e, id@) {
                Some(i) => {
                    lemma_put_first(e[i], without_key(e, id@));
                    assert forall|k: int| 0 <= k < after_get(e, id@).len() implies e.contains(
                        #[trigger] after_get(e, id@)[k],
                    ) by {
                        if k > 0 {
                            assert(after_get(e, id@)[k] == without_key(e, id@)[k - 1]);
                        } else {
                            assert(e[i] == after_get(e, id@)[0]);
                        }
                    }
                },
                None => {
                    assert forall|k: int| 0 <= k < e.len() implies e.contains(#[trigger] e[k]) by {}
                },
            }
        }
        match lru_get(&mut self.inner, id) {
            Some(m) => Some(m.clone()),
            None => None,
        }
    }

    /// Keeps a memory under its identifier.
    pub fn put(&mut self, m: &Memory)
        requires
            old(self).wf(),
        ensures
            final(self).wf(),
            final(self).entries() == after_put(
                old(self).entries(),
                MEMORY_CACHE_CAP as nat,
                m@.id,
                m@,
            ),
            forall|i: int|
                0 <= i < final(self).entries().len() ==> (#[trigger] final(self).entries()[i] == (
                    m@.id,
                    m@,
                ) || old(self).entries().contains(final(self).entries()[i])),
    {
        let ghost e = self.entries();
        let ghost new = (m@.id, m@);
        let ghost holds = has_key(m@.id);
        lru_put(&mut self.inner, m.id.clone(), m.clone());
        proof {
            table::lemma_find(e, holds);
            lemma_without_key(e, m@.id);
            let rest = if key_at(e, m@.id) is Some {
                without_key(e, m@.id)
            } else if e.len() == MEMORY_CACHE_CAP {
                e.drop_last()
            } else {
                e
            };
            assert forall|k: int| 0 <= k < rest.len() implies e.contains(#[trigger] rest[k]) && rest[k].0
                != m@.id by {
                if key_at(e, m@.id) is None {
                    assert(rest[k] == e[k]);
                    assert(!holds(e[k]));
                }
            }
            assert(is_cache(rest)) by {
                if key_at(e, m@.id) is None {
                    assert forall|i: int| 0 <= i < rest.len() implies (#[trigger] rest[i]).0
                        == rest[i].1.id by {
                        assert(rest[i] == e[i]);
                    }
                }
            }
            lemma_put_first(new, rest);
            assert(self.entries() == seq![new] + rest);
            assert forall|i: int| 0 <= i < self.entries().len() implies (#[trigger] self.entries()[i]
                == new || e.contains(self.entries()[i])) by {
                if i > 0 {
                    assert(self.entries()[i] == rest[i - 1]);
                }
            }
        }
    }

    /// Forgets the memory that is kept under an identifier.
    pub fn invalidate(&mut self, id: &str)
        requires
            old(self).wf(),
        ensures
            final(self).wf(),
            final(self).entries() == without_key(old(self).entries(), id@),
            is_part_of(final(self).entries(), old(self).entries()),
            forall|i: int|
                0 <= i < final(self).entries().len() ==> (#[trigger] final(self).entries()[i]).0
                    != id@,
    {
        proof {
            lemma_without_key(self.entries(), id@);
        }
        lru_pop(&mut self.inner, id);
    }

    /// Forgets the memories that are kept under these identifiers.
    pub fn invalidate_many(&mut self, ids: &[&str])
        requires
            old(self).wf(),
        ensures
            final(self).wf(),
            final(self).entries() == without_keys(old(self).entries(), text::slices(ids@)),
            is_part_of(final(self).entries(), old(self).entries()),
            forall|i: int, k: int|
                0 <= i < final(self).entries().len() && 0 <= k < ids@.len() ==> (
                #[trigger] final(self).entries()[i]).0 != (#[trigger] ids@[k])@,
    {
        let ghost start = self.entries();
        let mut i: usize = 0;
        let ghost all = text::slices(ids@);
        assert forall|k: int| 0 <= k < start.len() implies start.contains(#[trigger] start[k]) by {}
        proof {
            table::lemma_filter_all_pass(start, has_none_of(all.take(0)));
        }
        while i < ids.len()
            invariant
                i <= ids@.len(),
                self.wf(),
                all == text::slices(ids@),
                self.entries() == without_keys(start, all.take(i as int)),
                is_part_of(self.entries(), start),
                forall|j: int, k: int|
                    0 <= j < self.entries().len() && 0 <= k < i ==> (#[trigger] self.entries()[j]).0
                        != (#[trigger] ids@[k])@,
            decreases ids@.len() - i,
        {
            let ghost before = self.entries();
            self.invalidate(ids[i]);
            proof {
                let now = self.entries();
                assert forall|j: int| 0 <= j < now.len() implies start.contains(#[trigger] now[j]) by {
                    let k = choose|k: int| 0 <= k < before.len() && before[k] == now[j];
                    assert(start.contains(before[k]));
                }
                assert forall|j: int, k: int| 0 <= j < now.len() && 0 <= k < i + 1 implies (
                #[trigger] now[j]).0 != (#[trigger] ids@[k])@ by {
                    let b = choose|b: int| 0 <= b < before.len() && before[b] == now[j];
                    if k < i {
                        assert(before[b].0 != ids@[k]@);
                    }
                }
                lemma_without_next(start, all.take(i as int), ids@[i as int]@);
                assert(all.take(i + 1) =~= all.take(i as int).push(ids@[i as int]@));
            }
            i += 1;
        }
        assert(all.take(i as int) =~= all);
    }

    /// Forgets all memories.
    pub fn clear(&mut self)
        requires
            old(self).wf(),
        ensures
            final(self).wf(),
            final(self).entries() == Seq::<(Seq<char>, MemoryV)>::empty(),
    {
        lru_clear(&mut self.inner);
    }
}

/// Reading an entry moves it to the front; all entries stay, and the others keep their order.
pub proof fn lemma_get_moves_to_the_front(entries: Seq<(Seq<char>, MemoryV)>, at: int, k: int)
    requires
        distinct_keys(entries),
        0 <= at < entries.len(),
        0 <= k < entries.len(),
    ensures
        ({
            let out = after_get(entries, entries[at].0);
            &&& out.len() == entries.len()
            &&& out[0] == entries[at]
            &&& k < at ==> out[k + 1] == entries[k]
            &&& k > at ==> out[k] == entries[k]
        }),
{
    lemma_without_at(entries, at);
    let key = entries[at].0;
    assert(table::is_first(entries, has_key(key), at)) by {
        assert forall|j: int| 0 <= j < at implies !has_key(key)(#[trigger] entries[j]) by {
            assert(entries[j].0 != entries[at].0);
        }
    }
    table::lemma_found(entries, has_key(key), at);
}

proof fn lemma_without_at(entries: Seq<(Seq<char>, MemoryV)>, at: int)
    requires
        distinct_keys(entries),
        0 <= at < entries.len(),
    ensures
        without_key(entries, entries[at].0) == entries.remove(at),
    decreases entries.len(),
{
    reveal(Seq::filter);
    let key = entries[at].0;
    let front = entries.drop_last();
    if at == entries.len() - 1 {
        assert forall|i: int| 0 <= i < front.len() implies has_other_key(key)(#[trigger] front[i]) by {
            assert(entries[i].0 != entries[at].0);
        }
        table::lemma_filter_all_pass(front, has_other_key(key));
        assert(entries.remove(at) =~= front);
    } else {
        assert(distinct_keys(front)) by {
            assert forall|i: int, j: int| 0 <= i < j < front.len() implies (#[trigger] front[i]).0
                != (#[trigger] front[j]).0 by {
                assert(entries[i].0 != entries[j].0);
            }
        }
        lemma_without_at(front, at);
        assert(entries[at].0 != entries[entries.len() - 1].0);
        assert(entries.remove(at) =~= front.remove(at).push(entries.last()));
    }
}

/// A new entry stands first. The others keep their order behind it; where there were as many as
/// the cache holds, the one that was used longest ago is gone, and no other.
pub proof fn lemma_put_evicts_the_oldest(
    entries: Seq<(Seq<char>, MemoryV)>,
    cap: nat,
    key: Seq<char>,
    value: MemoryV,
)
    requires
        cap > 0,
        entries.len() <= cap,
        forall|i: int| 0 <= i < entries.len() ==> (#[trigger] entries[i]).0 != key,
    ensures
        ({
            let out = after_put(entries, cap, key, value);
            &&& out[0] == (key, value)
            &&& entries.len() < cap ==> out.len() == entries.len() + 1
            &&& entries.len() == cap ==> out.len() == cap
            &&& forall|i: int| 1 <= i < out.len() ==> #[trigger] out[i] == entries[i - 1]
        }),
{
    table::lemma_find(entries, has_key(key));
}

/// A new value for a key that is there takes the place of the old one, at the front.
pub proof fn lemma_put_replaces(
    entries: Seq<(Seq<char>, MemoryV)>,
    cap: nat,
    at: int,
    value: MemoryV,
)
    requires
        distinct_keys(entries),
        0 <= at < entries.len(),
    ensures
        after_put(entries, cap, entries[at].0, value) == seq![(entries[at].0, value)]
            + entries.remove(at),
{
    lemma_without_at(entries, at);
    table::lemma_find(entries, has_key(entries[at].0));
}

/// Forgetting keys takes the entries with these keys, and no other.
pub proof fn lemma_forgetting_is_exact(
    entries: Seq<(Seq<char>, MemoryV)>,
    keys: Seq<Seq<char>>,
    key: Seq<char>,
    e: (Seq<char>, MemoryV),
)
    ensures
        without_key(entries, key).contains(e) == (entries.contains(e) && e.0 != key),
        without_keys(entries, keys).contains(e) == (entries.contains(e) && !keys.contains(e.0)),
{
    table::lemma_filter_members(entries, has_other_key(key), e);
    table::lemma_filter_members(entries, has_none_of(keys), e);
}

/// The cache keeps up to 256 memories, each under its own identifier and once.
pub proof fn lemma_cache_is_bounded(entries: Seq<(Seq<char>, MemoryV)>, i: int, j: int)
    requires
        is_cache(entries),
        0 <= i < j < entries.len(),
    ensures
        entries.len() <= 256,
        entries[i].0 == entries[i].1.id,
        entries[i].0 != entries[j].0,
        MEMORY_CACHE_CAP == 256,
{
}

} // verus!
