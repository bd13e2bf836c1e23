//! Stable ordering of the positions of a list by a key.
use vstd::prelude::*;
use crate::bytes;
use crate::text;

verus! {

/// `p` put into `s` behind every position that it does not come before.
pub open spec fn placed(s: Seq<int>, p: int, before: spec_fn(int, int) -> bool) -> Seq<int>
    decreases s.len(),
{
    if s.len() > 0 && before(p, s.last()) {
        placed(s.drop_last(), p, before).push(s.last())
    } else {
        s.push(p)
    }
}

/// The positions `0..n` in the order `before`; positions of equal rank keep their order.
pub open spec fn ordered(n: nat, before: spec_fn(int, int) -> bool) -> Seq<int>
    decreases n,
{
    if n == 0 {
        seq![]
    } else {
        placed(ordered((n - 1) as nat, before), n - 1, before)
    }
}

/// The elements of `s` at the given positions.
pub open spec fn picked<T>(s: Seq<T>, positions: Seq<int>) -> Seq<T> {
    Seq::new(positions.len(), |i: int| s[positions[i]])
}

/// What an order has to satisfy on `0..n` for the outcome to be sorted.
pub open spec fn is_ranking(n: nat, before: spec_fn(int, int) -> bool) -> bool {
    &&& forall|p: int, q: int|
        0 <= p < n && 0 <= q < n && #[trigger] before(p, q) ==> !before(q, p)
    &&& forall|p: int, q: int, r: int|
        0 <= p < n && 0 <= q < n && 0 <= r < n && !#[trigger] before(p, q) && !#[trigger] before(q, r)
            ==> !before(p, r)
}

/// No position stands ahead of one that comes before it, and of two positions of equal rank the
/// smaller stands first.
pub open spec fn is_ordered(s: Seq<int>, before: spec_fn(int, int) -> bool) -> bool {
    &&& forall|i: int, j: int| 0 <= i < j < s.len() ==> !before(#[trigger] s[j], #[trigger] s[i])
    &&& forall|i: int, j: int|
        0 <= i < j < s.len() && !before(#[trigger] s[i], #[trigger] s[j]) ==> s[i] < s[j]
}

proof fn lemma_placed(s: Seq<int>, n: nat, before: spec_fn(int, int) -> bool)
    requires
        is_ranking(n + 1, before),
        is_ordered(s, before),
        forall|i: int| 0 <= i < s.len() ==> 0 <= #[trigger] s[i] < n,
    ensures
        is_ordered(placed(s, n as int, before), before),
        placed(s, n as int, before).len() == s.len() + 1,
        placed(s, n as int, before).to_multiset() == s.to_multiset().insert(n as int),
        forall|i: int| 0 <= i <= s.len() ==> 0 <= #[trigger] placed(s, n as int, before)[i] <= n,
        s.len() == 0 || !before(n as int, s.last()) ==> placed(s, n as int, before).last() == n,
        s.len() > 0 && before(n as int, s.last()) ==> placed(s, n as int, before).last() == s.last(),
    decreases s.len(),
{
    broadcast use vstd::seq_lib::group_to_multiset_ensures;

    let p = n as int;
    let out = placed(s, p, before);
    if s.len() > 0 && before(p, s.last()) {
        let front = s.drop_last();
        assert(s =~= front.push(s.last()));
        assert forall|i: int| 0 <= i < front.len() implies 0 <= #[trigger] front[i] < n by {
            assert(front[i] == s[i]);
        }
        assert(is_ordered(front, before)) by {
            assert forall|i: int, j: int| 0 <= i < j < front.len() implies !before(
                #[trigger] front[j],
                #[trigger] front[i],
            ) by {
                assert(front[i] == s[i] && front[j] == s[j]);
            }
            assert forall|i: int, j: int|
                0 <= i < j < front.len() && !before(
                    #[trigger] front[i],
                    #[trigger] front[j],
                ) implies front[i] < front[j] by {
                assert(front[i] == s[i] && front[j] == s[j]);
            }
        }
        lemma_placed(front, n, before);
        let inner = placed(front, p, before);
        assert(out == inner.push(s.last()));
        assert forall|i: int| 0 <= i < inner.len() implies (inner[i] == p || exists|k: int|
            0 <= k < front.len() && #[trigger] front[k] == inner[i]) by {
            assert(inner.to_multiset().count(inner[i]) > 0) by {
                assert(inner.contains(inner[i]));
            }
            if inner[i] != p {
                assert(front.to_multiset().count(inner[i]) > 0);
                assert(front.contains(inner[i]));
            }
        }
        assert forall|i: int, j: int| 0 <= i < j < out.len() implies !before(
            #[trigger] out[j],
            #[trigger] out[i],
        ) by {
            if j == inner.len() {
                if out[i] != p {
                    let k = choose|k: int| 0 <= k < front.len() && #[trigger] front[k] == inner[i];
                    assert(front[k] == s[k]);
                    assert(s.last() == s[s.len() - 1]);
                }
            } else {
                assert(out[i] == inner[i] && out[j] == inner[j]);
            }
        }
        assert forall|i: int, j: int|
            0 <= i < j < out.len() && !before(#[trigger] out[i], #[trigger] out[j]) implies out[i]
            < out[j] by {
            if j == inner.len() {
                if out[i] != p {
                    let k = choose|k: int| 0 <= k < front.len() && #[trigger] front[k] == inner[i];
                    assert(front[k] == s[k]);
                    assert(s.last() == s[s.len() - 1]);
                }
            } else {
                assert(out[i] == inner[i] && out[j] == inner[j]);
            }
        }
        assert(s.to_multiset() =~= front.to_multiset().insert(s.last()));
        assert(out.to_multiset() =~= s.to_multiset().insert(p));
    } else {
        assert forall|i: int, j: int| 0 <= i < j < out.len() implies !before(
            #[trigger] out[j],
            #[trigger] out[i],
        ) by {
            if j == s.len() {
                if i < s.len() - 1 {
                    assert(!before(s[s.len() - 1], s[i]));
                    assert(!before(p, s.last()));
                }
            } else {
                assert(out[i] == s[i] && out[j] == s[j]);
            }
        }
        assert forall|i: int, j: int|
            0 <= i < j < out.len() && !before(#[trigger] out[i], #[trigger] out[j]) implies out[i]
            < out[j] by {
            if j < s.len() {
                assert(out[i] == s[i] && out[j] == s[j]);
            } else {
                assert(out[i] == s[i]);
            }
        }
    }
}

/// The order of the positions is a permutation of them, is sorted, and is stable.
pub proof fn lemma_ordered(n: nat, before: spec_fn(int, int) -> bool)
    requires
        is_ranking(n, before),
    ensures
        ordered(n, before).len() == n,
        is_ordered(ordered(n, before), before),
        forall|i: int| 0 <= i < n ==> 0 <= #[trigger] ordered(n, before)[i] < n,
        forall|p: int| 0 <= p < n ==> ordered(n, before).to_multiset().count(p) == 1,
    decreases n,
{
    if n == 0 {
        assert(ordered(n, before).len() == 0);
    } else {
        let m = (n - 1) as nat;
        lemma_ordered(m, before);
        lemma_placed(ordered(m, before), m, before);
        broadcast use vstd::seq_lib::group_to_multiset_ensures;

        assert(ordered(m, before).to_multiset().count(m as int) == 0) by {
            if ordered(m, before).to_multiset().count(m as int) > 0 {
                assert(ordered(m, before).contains(m as int));
            }
        }
    }
}

/// Picking each position once rearranges the elements.
pub proof fn lemma_picked_is_permutation<T>(s: Seq<T>, o: Seq<int>)
    requires
        o.len() == s.len(),
        forall|i: int| 0 <= i < o.len() ==> 0 <= #[trigger] o[i] < s.len(),
        forall|p: int| 0 <= p < s.len() ==> o.to_multiset().count(p) == 1,
    ensures
        picked(s, o).to_multiset() == s.to_multiset(),
    decreases s.len(),
{
    broadcast use vstd::seq_lib::group_to_multiset_ensures;

    let out = picked(s, o);
    if s.len() == 0 {
        assert(out =~= s);
    } else {
        // Take the last element out of both.
        let n = s.len() - 1;
        assert(o.to_multiset().count(n) == 1);
        assert(o.contains(n));
        let k = choose|k: int| 0 <= k < o.len() && o[k] == n;
        let rest = o.remove(k);
        assert(o.to_multiset() =~= rest.to_multiset().insert(n)) by {
            vstd::seq_lib::to_multiset_remove(o, k);
        }
        assert forall|i: int| 0 <= i < rest.len() implies 0 <= #[trigger] rest[i] < n by {
            assert(rest.contains(rest[i]));
            assert(rest.to_multiset().count(rest[i]) > 0);
            let at = if i < k {
                i
            } else {
                i + 1
            };
            assert(rest[i] == o[at]);
            if rest[i] == n {
                assert(rest.to_multiset().count(n) > 0);
            }
        }
        assert forall|p: int| 0 <= p < n implies rest.to_multiset().count(p) == 1 by {
            assert(o.to_multiset().count(p) == 1);
        }
        let short = s.drop_last();
        lemma_picked_is_permutation(short, rest);
        assert(picked(short, rest) =~= out.remove(k)) by {
            assert forall|i: int| 0 <= i < rest.len() implies #[trigger] picked(short, rest)[i]
                == out.remove(k)[i] by {
                assert(0 <= rest[i] < n);
            }
        }
        assert(out[k] == s[n]);
        vstd::seq_lib::to_multiset_remove(out, k);
        assert(s =~= short.push(s[n]));
        assert(out.to_multiset() =~= s.to_multiset());
    }
}

/// There are as many positions in order as there are positions.
pub proof fn lemma_ordered_len(n: nat, before: spec_fn(int, int) -> bool)
    ensures
        ordered(n, before).len() == n,
    decreases n,
{
    if n > 0 {
        lemma_ordered_len((n - 1) as nat, before);
        lemma_placed_len(ordered((n - 1) as nat, before), n - 1, before);
    }
}

proof fn lemma_placed_len(s: Seq<int>, p: int, before: spec_fn(int, int) -> bool)
    ensures
        placed(s, p, before).len() == s.len() + 1,
    decreases s.len(),
{
    if s.len() > 0 && before(p, s.last()) {
        lemma_placed_len(s.drop_last(), p, before);
    }
}

/// Position `p` comes before `q` by text keys.
pub open spec fn by_text(keys: Seq<Seq<char>>, descending: bool) -> spec_fn(int, int) -> bool {
    |p: int, q: int|
        if descending {
            bytes::text_before(keys[q], keys[p])
        } else {
            bytes::text_before(keys[p], keys[q])
        }
}

/// Position `p` comes before `q` by number keys.
pub open spec fn by_number(keys: Seq<i64>, descending: bool) -> spec_fn(int, int) -> bool {
    |p: int, q: int|
        if descending {
            keys[q] < keys[p]
        } else {
            keys[p] < keys[q]
        }
}

/// Text keys rank.
pub proof fn lemma_by_text_ranks(keys: Seq<Seq<char>>, descending: bool)
    ensures
        is_ranking(keys.len(), by_text(keys, descending)),
{
    let before = by_text(keys, descending);
    let enc = |p: int| vstd::utf8::encode_utf8(keys[p]);
    assert forall|p: int, q: int|
        0 <= p < keys.len() && 0 <= q < keys.len() && #[trigger] before(p, q) implies !before(
        q,
        p,
    ) by {
        if before(q, p) {
            if descending {
                bytes::lemma_before_transitive(enc(q), enc(p), enc(q));
            } else {
                bytes::lemma_before_transitive(enc(p), enc(q), enc(p));
            }
            bytes::lemma_before_irreflexive(enc(p));
            bytes::lemma_before_irreflexive(enc(q));
        }
    }
    assert forall|p: int, q: int, r: int|
        0 <= p < keys.len() && 0 <= q < keys.len() && 0 <= r < keys.len() && !#[trigger] before(p, q)
            && !#[trigger] before(q, r) implies !before(p, r) by {
        if before(p, r) {
            bytes::lemma_before_total(enc(p), enc(q));
            bytes::lemma_before_total(enc(q), enc(r));
            if descending {
                if bytes::bytes_before(enc(p), enc(q)) {
                    bytes::lemma_before_transitive(enc(r), enc(p), enc(q));
                }
            } else {
                if bytes::bytes_before(enc(q), enc(p)) {
                    bytes::lemma_before_transitive(enc(q), enc(p), enc(r));
                }
            }
        }
    }
}

/// Number keys rank.
pub proof fn lemma_by_number_ranks(keys: Seq<i64>, descending: bool)
    ensures
        is_ranking(keys.len(), by_number(keys, descending)),
{
}

/// The positions that a list of indexes stands for.
pub open spec fn positions(v: Seq<usize>) -> Seq<int> {
    v.map_values(|i: usize| i as int)
}

fn ranks_before(a: &str, b: &str, descending: bool) -> (r: bool)
    ensures
        r == (if descending {
            bytes::text_before(b@, a@)
        } else {
            bytes::text_before(a@, b@)
        }),
{
    if descending {
        bytes::is_before(b, a)
    } else {
        bytes::is_before(a, b)
    }
}

/// The positions `0..n` in the stable order that a function tells.
fn sort_positions<F: Fn(usize, usize) -> bool>(
    n: usize,
    comes_before: F,
    Ghost(before): Ghost<spec_fn(int, int) -> bool>,
) -> (r: Vec<usize>)
    requires
        forall|p: usize, q: usize| p < n && q < n ==> comes_before.requires((p, q)),
        forall|p: usize, q: usize, is_first: bool| #[trigger]
            comes_before.ensures((p, q), is_first) ==> is_first == before(p as int, q as int),
    ensures
        positions(r@) == ordered(n as nat, before),
        r@.len() == n,
        forall|i: int| 0 <= i < r@.len() ==> #[trigger] r@[i] < n,
{
    let mut r: Vec<usize> = Vec::new();
    let mut next: usize = 0;
    assert(positions(r@) =~= ordered(0, before));
    while next < n
        invariant
            next <= n,
            r@.len() == next,
            forall|p: usize, q: usize| p < n && q < n ==> comes_before.requires((p, q)),
            forall|p: usize, q: usize, is_first: bool| #[trigger]
                comes_before.ensures((p, q), is_first) ==> is_first == before(p as int, q as int),
            positions(r@) == ordered(next as nat, before),
            forall|i: int| 0 <= i < r@.len() ==> #[trigger] r@[i] < next,
        decreases n - next,
    {
        let mut k: usize = r.len();
        let ghost s = positions(r@);
        assert(s.take(k as int) =~= s);
        assert(s.skip(k as int) =~= seq![]);
        assert(placed(s, next as int, before) =~= placed(s.take(k as int), next as int, before)
            + s.skip(k as int));
        while k > 0 && comes_before(next, r[k - 1])
            invariant
                next < n,
                k <= r@.len(),
                s == positions(r@),
                forall|p: usize, q: usize| p < n && q < n ==> comes_before.requires((p, q)),
                forall|p: usize, q: usize, is_first: bool| #[trigger]
                    comes_before.ensures((p, q), is_first) ==> is_first == before(
                        p as int,
                        q as int,
                    ),
                forall|i: int| 0 <= i < r@.len() ==> #[trigger] r@[i] < next,
                placed(s, next as int, before) == placed(s.take(k as int), next as int, before)
                    + s.skip(k as int),
            decreases k,
        {
            proof {
                let front = s.take(k as int);
                assert(front.drop_last() =~= s.take(k - 1));
                assert(s.skip(k - 1) =~= seq![s[k - 1]] + s.skip(k as int));
                assert(placed(front, next as int, before) + s.skip(k as int) =~= placed(
                    s.take(k - 1),
                    next as int,
                    before,
                ) + s.skip(k - 1));
            }
            k -= 1;
        }
        assert(placed(s.take(k as int), next as int, before) == s.take(k as int).push(next as int));
        r.insert(k, next);
        assert(positions(r@) =~= s.take(k as int).push(next as int) + s.skip(k as int));
        next += 1;
    }
    r
}

/// The stable order of text keys.
pub fn order_texts(keys: &Vec<&str>, descending: bool) -> (r: Vec<usize>)
    ensures
        positions(r@) == ordered(keys@.len(), by_text(text::slices(keys@), descending)),
        r@.len() == keys@.len(),
        forall|i: int| 0 <= i < r@.len() ==> #[trigger] r@[i] < keys@.len(),
{
    let ghost before = by_text(text::slices(keys@), descending);
    let comes_before = |p: usize, q: usize| -> (r: bool)
        requires
            p < keys@.len(),
            q < keys@.len(),
        ensures
            r == before(p as int, q as int),
        { ranks_before(keys[p], keys[q], descending) };
    sort_positions(keys.len(), comes_before, Ghost(before))
}

/// The stable order of number keys.
pub fn order_numbers(keys: &Vec<i64>, descending: bool) -> (r: Vec<usize>)
    ensures
        positions(r@) == ordered(keys@.len(), by_number(keys@, descending)),
        r@.len() == keys@.len(),
        forall|i: int| 0 <= i < r@.len() ==> #[trigger] r@[i] < keys@.len(),
{
    let ghost before = by_number(keys@, descending);
    let comes_before = |p: usize, q: usize| -> (r: bool)
        requires
            p < keys@.len(),
            q < keys@.len(),
        ensures
            r == before(p as int, q as int),
        {
            if descending {
                keys[q] < keys[p]
            } else {
                keys[p] < keys[q]
            }
        };
    sort_positions(keys.len(), comes_before, Ghost(before))
}

/// Texts are put into the order of their bytes, or into the opposite one; of equal texts the one
/// that came first stays first.
pub proof fn lemma_texts_in_order(keys: Seq<Seq<char>>, i: int, j: int)
    requires
        0 <= i < j < keys.len(),
    ensures
        ({
            let up = ordered(keys.len(), by_text(keys, false));
            &&& up.len() == keys.len()
            &&& 0 <= up[i] < keys.len() && 0 <= up[j] < keys.len() && up[i] != up[j]
            &&& keys[up[i]] == keys[up[j]] || bytes::text_before(keys[up[i]], keys[up[j]])
            &&& keys[up[i]] == keys[up[j]] ==> up[i] < up[j]
        }),
        ({
            let down = ordered(keys.len(), by_text(keys, true));
            &&& down.len() == keys.len()
            &&& 0 <= down[i] < keys.len() && 0 <= down[j] < keys.len() && down[i] != down[j]
            &&& keys[down[i]] == keys[down[j]] || bytes::text_before(keys[down[j]], keys[down[i]])
            &&& keys[down[i]] == keys[down[j]] ==> down[i] < down[j]
        }),
{
    lemma_texts_in_one_order(keys, false, i, j);
    lemma_texts_in_one_order(keys, true, i, j);
}

proof fn lemma_texts_in_one_order(keys: Seq<Seq<char>>, descending: bool, i: int, j: int)
    requires
        0 <= i < j < keys.len(),
    ensures
        ({
            let o = ordered(keys.len(), by_text(keys, descending));
            let first = if descending {
                keys[o[j]]
            } else {
                keys[o[i]]
            };
            let second = if descending {
                keys[o[i]]
            } else {
                keys[o[j]]
            };
            &&& o.len() == keys.len()
            &&& 0 <= o[i] < keys.len() && 0 <= o[j] < keys.len() && o[i] != o[j]
            &&& first == second || bytes::text_before(first, second)
            &&& first == second ==> o[i] < o[j]
        }),
{
    let before = by_text(keys, descending);
    lemma_by_text_ranks(keys, descending);
    lemma_ordered(keys.len(), before);
    let o = ordered(keys.len(), before);
    let (p, q) = (o[i], o[j]);
    let a = vstd::utf8::encode_utf8(keys[p]);
    let b = vstd::utf8::encode_utf8(keys[q]);
    bytes::lemma_before_total(a, b);
    bytes::lemma_before_irreflexive(a);
    assert(!before(q, p));
    if a == b {
        vstd::utf8::encode_utf8_decode_utf8(keys[p]);
        vstd::utf8::encode_utf8_decode_utf8(keys[q]);
    }
    if !before(p, q) {
        assert(p < q);
    }
    if p == q {
        assert(!before(p, q));
    }
}

/// Numbers are put into ascending order, or into descending order; of equal numbers the one that
/// came first stays first.
pub proof fn lemma_numbers_in_order(keys: Seq<i64>, i: int, j: int)
    requires
        0 <= i < j < keys.len(),
    ensures
        ({
            let up = ordered(keys.len(), by_number(keys, false));
            &&& up.len() == keys.len()
            &&& 0 <= up[i] < keys.len() && 0 <= up[j] < keys.len() && up[i] != up[j]
            &&& keys[up[i]] <= keys[up[j]]
            &&& keys[up[i]] == keys[up[j]] ==> up[i] < up[j]
        }),
        ({
            let down = ordered(keys.len(), by_number(keys, true));
            &&& down.len() == keys.len()
            &&& 0 <= down[i] < keys.len() && 0 <= down[j] < keys.len() && down[i] != down[j]
            &&& keys[down[i]] >= keys[down[j]]
            &&& keys[down[i]] == keys[down[j]] ==> down[i] < down[j]
        }),
{
    lemma_by_number_ranks(keys, false);
    lemma_ordered(keys.len(), by_number(keys, false));
    lemma_by_number_ranks(keys, true);
    lemma_ordered(keys.len(), by_number(keys, true));
}

/// Picking takes the elements at the positions, in the order of the positions.
pub proof fn lemma_picked_one_by_one<T>(s: Seq<T>, at: Seq<int>, v: Seq<usize>, i: int)
    ensures
        picked(s, at).len() == at.len(),
        0 <= i < at.len() ==> picked(s, at)[i] == s[at[i]],
        positions(v).len() == v.len(),
        0 <= i < v.len() ==> positions(v)[i] == v[i],
{
}

} // verus!
