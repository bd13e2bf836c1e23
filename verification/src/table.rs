//! What the tables have in common: lists of rows, and the search for one of them.
use vstd::prelude::*;

verus! {

/// The mathematical readings of the elements of a list.
pub open spec fn views<T: View>(v: Seq<T>) -> Seq<T::V> {
    v.map_values(|x: T| x@)
}

/// `i` is the first position at which `p` holds.
pub open spec fn is_first<T>(s: Seq<T>, p: spec_fn(T) -> bool, i: int) -> bool {
    &&& 0 <= i < s.len()
    &&& p(s[i])
    &&& forall|j: int| 0 <= j < i ==> !p(#[trigger] s[j])
}

/// The first position at which `p` holds.
pub open spec fn find<T>(s: Seq<T>, p: spec_fn(T) -> bool) -> Option<int> {
    if exists|i: int| is_first(s, p, i) {
        Some(choose|i: int| is_first(s, p, i))
    } else {
        None
    }
}

/// The first position at which `p` holds is the only one with that property.
pub proof fn lemma_found<T>(s: Seq<T>, p: spec_fn(T) -> bool, i: int)
    requires
        is_first(s, p, i),
    ensures
        find(s, p) == Some(i),
{
    let k = choose|k: int| is_first(s, p, k);
    assert(is_first(s, p, k));
}

/// Where `p` holds nowhere, there is no first position.
pub proof fn lemma_not_found<T>(s: Seq<T>, p: spec_fn(T) -> bool)
    requires
        forall|j: int| 0 <= j < s.len() ==> !p(#[trigger] s[j]),
    ensures
        find(s, p) is None,
{
}

/// The first position is a position at which `p` holds, and there is one if `p` holds anywhere.
pub proof fn lemma_find<T>(s: Seq<T>, p: spec_fn(T) -> bool)
    ensures
        match find(s, p) {
            Some(i) => is_first(s, p, i),
            None => forall|j: int| 0 <= j < s.len() ==> !p(#[trigger] s[j]),
        },
{
    if find(s, p) is None {
        assert forall|j: int| 0 <= j < s.len() implies !p(#[trigger] s[j]) by {
            if p(s[j]) {
                lemma_first_exists(s, p, j);
            }
        }
    }
}

proof fn lemma_first_exists<T>(s: Seq<T>, p: spec_fn(T) -> bool, j: int)
    requires
        0 <= j < s.len(),
        p(s[j]),
    ensures
        exists|i: int| is_first(s, p, i),
    decreases j,
{
    if forall|k: int| 0 <= k < j ==> !p(#[trigger] s[k]) {
        assert(is_first(s, p, j));
    } else {
        let k = choose|k: int| 0 <= k < j && p(#[trigger] s[k]);
        lemma_first_exists(s, p, k);
    }
}

/// The positions of the elements that a filter keeps: they ascend, and `p` holds at each of them.
pub proof fn filter_positions<T>(s: Seq<T>, p: spec_fn(T) -> bool) -> (at: Seq<int>)
    ensures
        at.len() == s.filter(p).len(),
        forall|i: int|
            0 <= i < at.len() ==> 0 <= #[trigger] at[i] < s.len() && s.filter(p)[i] == s[at[i]] && p(
                s[at[i]],
            ),
        forall|i: int, j: int| 0 <= i < j < at.len() ==> #[trigger] at[i] < #[trigger] at[j],
    decreases s.len(),
{
    reveal(Seq::filter);
    if s.len() == 0 {
        seq![]
    } else {
        let front = s.drop_last();
        let at = filter_positions(front, p);
        assert forall|i: int| 0 <= i < at.len() implies 0 <= #[trigger] at[i] < s.len() && s.filter(
            p,
        )[i] == s[at[i]] && p(s[at[i]]) by {
            assert(front.filter(p)[i] == front[at[i]]);
        }
        if p(s.last()) {
            at.push(s.len() - 1)
        } else {
            at
        }
    }
}

/// What a filter keeps are the elements at which `p` holds.
pub proof fn lemma_filter_members<T>(s: Seq<T>, p: spec_fn(T) -> bool, x: T)
    ensures
        s.filter(p).contains(x) == (s.contains(x) && p(x)),
{
    broadcast use vstd::seq_lib::group_filter_ensures;

    let at = filter_positions(s, p);
    if s.filter(p).contains(x) {
        let i = choose|i: int| 0 <= i < s.filter(p).len() && s.filter(p)[i] == x;
        assert(s[at[i]] == x);
    }
    if s.contains(x) && p(x) {
        let i = choose|i: int| 0 <= i < s.len() && s[i] == x;
        assert(p(s[i]));
    }
}

/// Nothing is filtered out where everything passes.
pub proof fn lemma_filter_all_pass<A>(s: Seq<A>, p: spec_fn(A) -> bool)
    requires
        forall|i: int| 0 <= i < s.len() ==> p(#[trigger] s[i]),
    ensures
        s.filter(p) == s,
    decreases s.len(),
{
    reveal(Seq::filter);
    if s.len() > 0 {
        let front = s.drop_last();
        assert forall|i: int| 0 <= i < front.len() implies p(#[trigger] front[i]) by {
            assert(front[i] == s[i]);
        }
        lemma_filter_all_pass(front, p);
        assert(p(s[s.len() - 1]));
        assert(s =~= front.push(s.last()));
    } else {
        assert(s.filter(p) =~= s);
    }
}

/// A filter that keeps as many elements as there are keeps them all.
pub proof fn lemma_filter_keeps_all<A>(s: Seq<A>, p: spec_fn(A) -> bool)
    ensures
        s.filter(p).len() <= s.len(),
        s.filter(p).len() == s.len() ==> s.filter(p) == s,
    decreases s.len(),
{
    reveal(Seq::filter);
    if s.len() > 0 {
        lemma_filter_keeps_all(s.drop_last(), p);
        assert(s =~= s.drop_last().push(s.last()));
    } else {
        assert(s.filter(p) =~= s);
    }
}

/// A filter keeps the first element or not, and then those of the rest.
pub proof fn lemma_filter_first<T>(s: Seq<T>, p: spec_fn(T) -> bool)
    requires
        s.len() > 0,
    ensures
        s.filter(p) == if p(s[0]) {
            seq![s[0]] + s.drop_first().filter(p)
        } else {
            s.drop_first().filter(p)
        },
{
    let one = seq![s[0]];
    let rest = s.drop_first();
    assert(s =~= one + rest);
    Seq::filter_distributes_over_add(one, rest, p);
    reveal(Seq::filter);
    assert(one.drop_last() =~= seq![]);
    assert(one.drop_last().filter(p) =~= seq![]);
    assert(one.filter(p) =~= if p(s[0]) {
        one
    } else {
        seq![]
    });
    assert(seq![] + rest.filter(p) =~= rest.filter(p));
}

/// A filter keeps the elements of a front part, and then those of the rest.
pub proof fn lemma_filter_suffix<T>(s: Seq<T>, p: spec_fn(T) -> bool, i: int)
    requires
        0 <= i <= s.len(),
    ensures
        s.filter(p) == s.take(i).filter(p) + s.skip(i).filter(p),
{
    assert(s =~= s.take(i) + s.skip(i));
    Seq::filter_distributes_over_add(s.take(i), s.skip(i), p);
}

/// The first `limit` elements, or all where there are fewer.
pub open spec fn at_most<T>(s: Seq<T>, limit: nat) -> Seq<T> {
    s.take(
        if limit < s.len() {
            limit as int
        } else {
            s.len() as int
        },
    )
}

/// Everything that `p` does not hold of.
pub open spec fn not<T>(p: spec_fn(T) -> bool) -> spec_fn(T) -> bool {
    |x: T| !p(x)
}

/// Takes the rows that are marked out of a list, and returns them. Of the readings `f` of the rows,
/// those stay of which `keep` holds.
pub(crate) fn take_out<T, V>(
    rows: &mut Vec<T>,
    goes: &Vec<bool>,
    Ghost(f): Ghost<spec_fn(T) -> V>,
    Ghost(keep): Ghost<spec_fn(V) -> bool>,
) -> (gone: Vec<T>)
    requires
        goes@.len() == old(rows)@.len(),
        forall|i: int| 0 <= i < goes@.len() ==> #[trigger] goes@[i] == !keep(f(old(rows)@[i])),
    ensures
        final(rows)@.map_values(f) == old(rows)@.map_values(f).filter(keep),
        gone@.map_values(f) == old(rows)@.map_values(f).filter(not(keep)),
        gone@.len() + final(rows)@.len() == old(rows)@.len(),
{
    let ghost start = rows@;
    let ghost all = rows@.map_values(f);
    let mut gone: Vec<T> = Vec::new();
    let mut i: usize = 0;
    let mut k: usize = 0;
    proof {
        reveal(Seq::filter);
        assert(all.take(0).filter(keep) =~= rows@.take(0).map_values(f));
        assert(gone@.map_values(f) =~= all.take(0).filter(not(keep)));
        assert(rows@.skip(0) =~= start.skip(0));
    }
    while k < goes.len()
        invariant
            all == start.map_values(f),
            goes@.len() == start.len(),
            forall|j: int| 0 <= j < goes@.len() ==> #[trigger] goes@[j] == !keep(f(start[j])),
            i <= k <= goes@.len(),
            gone@.len() + i == k,
            rows@.len() == start.len() - gone@.len(),
            rows@.take(i as int).map_values(f) == all.take(k as int).filter(keep),
            rows@.skip(i as int) == start.skip(k as int),
            gone@.map_values(f) == all.take(k as int).filter(not(keep)),
        decreases goes@.len() - k,
    {
        let ghost now = rows@;
        let ghost taken = gone@;
        proof {
            reveal(Seq::filter);
            assert(now.skip(i as int)[0] == start.skip(k as int)[0]);
            assert(all.take(k + 1).drop_last() =~= all.take(k as int));
            assert(all.take(k + 1).last() == f(start[k as int]));
            assert(start.skip(k + 1) =~= start.skip(k as int).drop_first());
        }
        if goes[k] {
            let row = rows.remove(i);
            gone.push(row);
            proof {
                assert(rows@.take(i as int) =~= now.take(i as int));
                assert(rows@.skip(i as int) =~= now.skip(i as int).drop_first());
                assert(gone@.map_values(f) =~= taken.map_values(f).push(f(row)));
            }
        } else {
            proof {
                assert(now.take(i + 1).map_values(f) =~= now.take(i as int).map_values(f).push(
                    f(now[i as int]),
                ));
                assert(now.skip(i + 1) =~= now.skip(i as int).drop_first());
            }
            i += 1;
        }
        k += 1;
    }
    assert(all.take(k as int) =~= all);
    assert(rows@.take(i as int) =~= rows@);
    gone
}

/// A limit keeps the first elements, as many as it says, or all where there are fewer.
pub proof fn lemma_at_most<T>(s: Seq<T>, limit: nat)
    ensures
        at_most(s, limit).len() == if s.len() <= limit {
            s.len()
        } else {
            limit
        },
        forall|i: int| 0 <= i < at_most(s, limit).len() ==> #[trigger] at_most(s, limit)[i] == s[i],
        s.len() <= limit ==> at_most(s, limit) == s,
{
    if s.len() <= limit {
        assert(at_most(s, limit) =~= s);
    }
}

/// Of two conditions one of which holds of each element, each element counts for one.
pub proof fn lemma_filters_part<T>(s: Seq<T>, p: spec_fn(T) -> bool, q: spec_fn(T) -> bool)
    requires
        forall|i: int| 0 <= i < s.len() ==> p(#[trigger] s[i]) != q(s[i]),
    ensures
        s.filter(p).len() + s.filter(q).len() == s.len(),
    decreases s.len(),
{
    reveal(Seq::filter);
    if s.len() > 0 {
        let front = s.drop_last();
        assert forall|i: int| 0 <= i < front.len() implies p(#[trigger] front[i]) != q(front[i]) by {
            assert(front[i] == s[i]);
        }
        lemma_filters_part(front, p, q);
        assert(s[s.len() - 1] == s.last());
    }
}

/// Readings of a list are the readings of its elements, in their order.
pub proof fn lemma_views_are_one_by_one<T: View>(v: Seq<T>, i: int)
    requires
        0 <= i < v.len(),
    ensures
        views(v).len() == v.len(),
        views(v)[i] == v[i]@,
{
}

/// A search finds an element that meets the condition, and none before it does; it finds none
/// exactly where none does.
pub proof fn lemma_find_is_first<T>(s: Seq<T>, p: spec_fn(T) -> bool, k: int)
    requires
        0 <= k < s.len(),
    ensures
        find(s, p) matches Some(i) ==> 0 <= i < s.len() && p(s[i]) && (k < i ==> !p(s[k])),
        find(s, p) is None ==> !p(s[k]),
{
    lemma_find(s, p);
}

} // verus!
