//! Texts as UTF-8: byte length, equality, byte order and cuts that split no character.
use vstd::prelude::*;
use vstd::string::*;
use vstd::utf8::*;

verus! {

/// The number of bytes of `s` in UTF-8.
pub open spec fn byte_len(s: Seq<char>) -> nat {
    encode_utf8(s).len()
}

/// The encoding of a text is the encodings of its two parts, one after the other.
pub proof fn lemma_encode_concat(a: Seq<char>, b: Seq<char>)
    ensures
        encode_utf8(a + b) == encode_utf8(a) + encode_utf8(b),
    decreases a.len(),
{
    if a.len() == 0 {
        assert(a + b =~= b);
    } else {
        assert((a + b).drop_first() =~= a.drop_first() + b);
        lemma_encode_concat(a.drop_first(), b);
    }
}

/// A character boundary lies behind each prefix of the characters.
proof fn lemma_boundary_behind_prefix(s: Seq<char>, k: int)
    requires
        0 <= k <= s.len(),
    ensures
        is_char_boundary(encode_utf8(s), byte_len(s.take(k)) as int),
    decreases k,
{
    encode_utf8_valid_utf8(s);
    if k == 0 {
        assert(s.take(k).len() == 0);
    } else {
        let bytes = encode_utf8(s);
        let rest = s.drop_first();
        encode_utf8_first_scalar(s);
        assert(pop_first_scalar(bytes) =~= encode_utf8(rest));
        lemma_boundary_behind_prefix(rest, k - 1);
        assert(s.take(k).drop_first() =~= rest.take(k - 1));
        lemma_encode_concat(s.take(k), s.skip(k));
        assert(s.take(k) + s.skip(k) =~= s);
    }
}

/// A longer prefix has at least as many bytes.
proof fn lemma_byte_len_grows(s: Seq<char>, i: int, j: int)
    requires
        0 <= i <= j <= s.len(),
    ensures
        byte_len(s.take(i)) <= byte_len(s.take(j)),
{
    lemma_encode_concat(s.take(i), s.subrange(i, j));
    assert(s.take(i) + s.subrange(i, j) =~= s.take(j));
}

/// The longest prefix of `s` that takes at most `max` bytes.
pub open spec fn cut_at(s: Seq<char>, max: nat) -> Seq<char>
    decreases s.len(),
{
    if byte_len(s) <= max || s.len() == 0 {
        s
    } else {
        cut_at(s.drop_last(), max)
    }
}

/// The cut is a prefix of at most `max` bytes, and no longer prefix has as few.
pub proof fn lemma_cut_is_longest(s: Seq<char>, max: nat)
    ensures
        cut_at(s, max).is_prefix_of(s),
        byte_len(cut_at(s, max)) <= max,
        forall|k: int| cut_at(s, max).len() < k <= s.len() ==> byte_len(#[trigger] s.take(k)) > max,
    decreases s.len(),
{
    if byte_len(s) > max {
        let shorter = s.drop_last();
        lemma_cut_is_longest(shorter, max);
        assert forall|k: int| cut_at(s, max).len() < k <= s.len() implies byte_len(
            #[trigger] s.take(k),
        ) > max by {
            if k == s.len() {
                assert(s.take(k) =~= s);
            } else {
                assert(s.take(k) =~= shorter.take(k));
            }
        }
    }
}

/// A prefix that fits, and after which the next character does not, is the cut.
proof fn lemma_is_cut(s: Seq<char>, n: int, max: nat)
    requires
        0 <= n <= s.len(),
        byte_len(s.take(n)) <= max,
        n < s.len() ==> byte_len(s.take(n + 1)) > max,
    ensures
        cut_at(s, max) == s.take(n),
    decreases s.len(),
{
    if n == s.len() {
        assert(s.take(n) =~= s);
    } else {
        lemma_byte_len_grows(s, n + 1, s.len() as int);
        assert(s.take(s.len() as int) =~= s);
        let shorter = s.drop_last();
        assert(s.take(n) =~= shorter.take(n));
        if n < shorter.len() {
            assert(s.take(n + 1) =~= shorter.take(n + 1));
        }
        lemma_is_cut(shorter, n, max);
    }
}

/// Cuts `s` to at most `max` bytes without splitting a character.
pub fn truncate_at_char_boundary(s: &str, max: usize) -> (r: &str)
    ensures
        r@ == cut_at(s@, max as nat),
{
    let bytes = s.as_bytes();
    if bytes.len() <= max {
        return s;
    }
    let ghost all = encode_utf8(s@);
    proof {
        encode_utf8_valid_utf8(s@);
        is_char_boundary_start_end_of_seq(all);
    }
    let mut cut: usize = max;
    while !s.is_char_boundary(cut)
        invariant
            all == encode_utf8(s@),
            cut <= max < all.len(),
            is_char_boundary(all, 0),
            forall|i: int| cut < i <= max ==> !is_char_boundary(all, i),
        decreases cut,
    {
        cut -= 1;
    }
    let (head, tail) = s.split_at(cut);
    proof {
        let n = head@.len() as int;
        encode_utf8_decode_utf8(s@);
        encode_utf8_decode_utf8(head@);
        encode_utf8_decode_utf8(tail@);
        decode_utf8_split(all, cut as int);
        assert(s@ == head@ + tail@);
        assert(s@.take(n) =~= head@);
        if n < s@.len() {
            lemma_boundary_behind_prefix(s@, n + 1);
            lemma_byte_len_grows(s@, n, n + 1);
            let next = s@.take(n + 1);
            lemma_encode_concat(s@.take(n), seq![s@[n]]);
            assert(next =~= s@.take(n) + seq![s@[n]]);
            encode_utf8_first_scalar(seq![s@[n]]);
            assert(byte_len(seq![s@[n]]) > 0);
            lemma_byte_len_grows(s@, n + 1, s@.len() as int);
            assert(s@.take(s@.len() as int) =~= s@);
        }
        lemma_is_cut(s@, n, max as nat);
    }
    head
}

/// Whether two texts have the same characters.
pub fn same_text(a: &str, b: &str) -> (r: bool)
    ensures
        r == (a@ == b@),
{
    let x = a.as_bytes();
    let y = b.as_bytes();
    proof {
        encode_utf8_decode_utf8(a@);
        encode_utf8_decode_utf8(b@);
    }
    if x.len() != y.len() {
        return false;
    }
    // Names and numbers mostly differ at their end.
    let mut i: usize = x.len();
    while i > 0
        invariant
            x@ == encode_utf8(a@),
            y@ == encode_utf8(b@),
            x@.len() == y@.len(),
            i <= x@.len(),
            forall|k: int| i <= k < x@.len() ==> x@[k] == y@[k],
        decreases i,
    {
        i -= 1;
        if x[i] != y[i] {
            return false;
        }
    }
    assert(x@ =~= y@);
    true
}

/// `a` comes before `b` in the order of bytes.
pub open spec fn bytes_before(a: Seq<u8>, b: Seq<u8>) -> bool
    decreases b.len(),
{
    if b.len() == 0 {
        false
    } else if a.len() == 0 {
        true
    } else if a[0] != b[0] {
        a[0] < b[0]
    } else {
        bytes_before(a.drop_first(), b.drop_first())
    }
}

/// `a` comes before `b` in the order of their UTF-8 bytes.
pub open spec fn text_before(a: Seq<char>, b: Seq<char>) -> bool {
    bytes_before(encode_utf8(a), encode_utf8(b))
}

/// Whether `a` comes before `b` in the order of their UTF-8 bytes.
pub fn is_before(a: &str, b: &str) -> (r: bool)
    ensures
        r == text_before(a@, b@),
{
    let x = a.as_bytes();
    let y = b.as_bytes();
    let mut i: usize = 0;
    assert(x@.skip(0) =~= x@);
    assert(y@.skip(0) =~= y@);
    while i < x.len() && i < y.len()
        invariant
            i <= x@.len(),
            i <= y@.len(),
            bytes_before(x@.skip(i as int), y@.skip(i as int)) == text_before(a@, b@),
        decreases x@.len() - i,
    {
        assert(x@.skip(i as int).drop_first() =~= x@.skip(i + 1));
        assert(y@.skip(i as int).drop_first() =~= y@.skip(i + 1));
        if x[i] != y[i] {
            return x[i] < y[i];
        }
        i += 1;
    }
    i < y.len()
}

/// No text comes before itself.
pub proof fn lemma_before_irreflexive(a: Seq<u8>)
    ensures
        !bytes_before(a, a),
    decreases a.len(),
{
    if a.len() > 0 {
        lemma_before_irreflexive(a.drop_first());
    }
}

/// The order of bytes is transitive.
pub proof fn lemma_before_transitive(a: Seq<u8>, b: Seq<u8>, c: Seq<u8>)
    requires
        bytes_before(a, b),
        bytes_before(b, c),
    ensures
        bytes_before(a, c),
    decreases a.len(),
{
    if a.len() > 0 && a[0] == b[0] && b[0] == c[0] {
        lemma_before_transitive(a.drop_first(), b.drop_first(), c.drop_first());
    }
}

/// Of two different byte strings one comes before the other.
pub proof fn lemma_before_total(a: Seq<u8>, b: Seq<u8>)
    ensures
        bytes_before(a, b) || bytes_before(b, a) || a == b,
    decreases a.len(),
{
    if a.len() > 0 && b.len() > 0 && a[0] == b[0] {
        lemma_before_total(a.drop_first(), b.drop_first());
        if a.drop_first() == b.drop_first() {
            assert(a =~= seq![a[0]] + a.drop_first());
            assert(b =~= seq![b[0]] + b.drop_first());
        }
    } else if a.len() == 0 && b.len() == 0 {
        assert(a =~= b);
    }
}

/// The order of texts is transitive.
pub proof fn lemma_text_transitive(a: Seq<char>, b: Seq<char>, c: Seq<char>)
    requires
        text_before(a, b),
        text_before(b, c),
    ensures
        text_before(a, c),
{
    lemma_before_transitive(encode_utf8(a), encode_utf8(b), encode_utf8(c));
}

/// Of two different texts one comes before the other.
pub proof fn lemma_text_total(a: Seq<char>, b: Seq<char>)
    ensures
        text_before(a, b) || text_before(b, a) || a == b,
{
    lemma_before_total(encode_utf8(a), encode_utf8(b));
    encode_utf8_decode_utf8(a);
    encode_utf8_decode_utf8(b);
}

/// Where two byte strings first differ, the smaller byte decides.
pub proof fn lemma_first_difference_decides(
    p: Seq<u8>,
    x: u8,
    a: Seq<u8>,
    y: u8,
    b: Seq<u8>,
)
    requires
        x != y,
    ensures
        bytes_before(p + seq![x] + a, p + seq![y] + b) == (x < y),
    decreases p.len(),
{
    let s = p + seq![x] + a;
    let t = p + seq![y] + b;
    if p.len() > 0 {
        let rest = p.drop_first();
        assert(s.drop_first() =~= rest + seq![x] + a);
        assert(t.drop_first() =~= rest + seq![y] + b);
        assert(s[0] == t[0]);
        lemma_first_difference_decides(rest, x, a, y, b);
    } else {
        assert(s[0] == x && t[0] == y);
    }
}

/// A byte string comes before every longer one that begins with it, and not behind any.
pub proof fn lemma_prefix_comes_first(p: Seq<u8>, a: Seq<u8>)
    ensures
        bytes_before(p, p + a) == (a.len() > 0),
        !bytes_before(p + a, p),
    decreases p.len(),
{
    if p.len() > 0 {
        assert((p + a).drop_first() =~= p.drop_first() + a);
        lemma_prefix_comes_first(p.drop_first(), a);
    }
}

/// Texts are ordered by the first byte of their UTF-8 in which they differ.
pub proof fn lemma_text_order_is_byte_order(
    s: Seq<char>,
    t: Seq<char>,
    p: Seq<u8>,
    x: u8,
    a: Seq<u8>,
    y: u8,
    b: Seq<u8>,
)
    requires
        encode_utf8(s) == p + seq![x] + a,
        encode_utf8(t) == p + seq![y] + b,
        x != y,
    ensures
        text_before(s, t) == (x < y),
{
    lemma_first_difference_decides(p, x, a, y, b);
}

/// A text comes before every longer one that begins with it.
pub proof fn lemma_text_prefix_comes_first(s: Seq<char>, more: Seq<char>)
    requires
        more.len() > 0,
    ensures
        text_before(s, s + more),
        !text_before(s + more, s),
{
    lemma_encode_concat(s, more);
    char_is_scalar(more[0]);
    lemma_prefix_comes_first(encode_utf8(s), encode_utf8(more));
}

/// A length in bytes is that of the UTF-8; a text of ASCII characters has one byte for each.
pub proof fn lemma_byte_len(s: Seq<char>)
    ensures
        byte_len(s) == encode_utf8(s).len(),
        (forall|i: int| 0 <= i < s.len() ==> (#[trigger] s[i] as u32) < 0x80) ==> byte_len(s)
            == s.len(),
    decreases s.len(),
{
    if s.len() > 0 {
        lemma_byte_len(s.drop_first());
        if forall|i: int| 0 <= i < s.len() ==> (#[trigger] s[i] as u32) < 0x80 {
            assert forall|i: int| 0 <= i < s.drop_first().len() implies (
            #[trigger] s.drop_first()[i] as u32) < 0x80 by {
                assert(s.drop_first()[i] == s[i + 1]);
            }
            assert((s[0] as u32) < 0x80);
        }
    }
}

} // verus!
