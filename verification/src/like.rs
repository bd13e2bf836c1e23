//! The `LIKE` operator of SQL and the escaping of its wildcards.
use vstd::prelude::*;
use crate::text;

verus! {

/// One element of a `LIKE` pattern over the characters `C`.
pub enum Piece<C> {
    /// `%`: any run of characters, the empty one too.
    AnyRun,
    /// `_`: any one character.
    AnyOne,
    /// A character that stands for itself, in either ASCII case.
    Just(C),
    /// An escape character with nothing behind it: matches nothing.
    Never,
}

/// The elements of a pattern whose escape character is `escape`.
pub open spec fn pieces(pattern: Seq<char>, escape: Option<char>) -> Seq<Piece<char>>
    decreases pattern.len(),
{
    if pattern.len() == 0 {
        seq![]
    } else if escape == Some(pattern[0]) {
        if pattern.len() == 1 {
            seq![Piece::Never]
        } else {
            seq![Piece::Just(pattern[1])] + pieces(pattern.skip(2), escape)
        }
    } else if pattern[0] == '%' {
        seq![Piece::AnyRun] + pieces(pattern.drop_first(), escape)
    } else if pattern[0] == '_' {
        seq![Piece::AnyOne] + pieces(pattern.drop_first(), escape)
    } else {
        seq![Piece::Just(pattern[0])] + pieces(pattern.drop_first(), escape)
    }
}

/// `c` in lower case, where it is an ASCII letter.
pub open spec fn fold(c: char) -> char {
    if 'A' <= c <= 'Z' {
        ((c as u32 + 32) as u32) as char
    } else {
        c
    }
}

/// `s` with its ASCII letters in lower case.
pub open spec fn folded(s: Seq<char>) -> Seq<char> {
    s.map_values(|c: char| fold(c))
}

/// The text is one that the pattern's elements describe.
pub open spec fn matches_pieces(p: Seq<Piece<char>>, t: Seq<char>) -> bool
    decreases p.len(), t.len(),
{
    if p.len() == 0 {
        t.len() == 0
    } else {
        let rest = p.drop_first();
        match p[0] {
            Piece::AnyRun => matches_pieces(rest, t) || (t.len() > 0 && matches_pieces(
                p,
                t.drop_first(),
            )),
            Piece::AnyOne => t.len() > 0 && matches_pieces(rest, t.drop_first()),
            Piece::Just(c) => t.len() > 0 && fold(t[0]) == fold(c) && matches_pieces(
                rest,
                t.drop_first(),
            ),
            Piece::Never => false,
        }
    }
}

/// `text LIKE pattern`, with `ESCAPE` where an escape character is given.
pub open spec fn is_like(t: Seq<char>, pattern: Seq<char>, escape: Option<char>) -> bool {
    matches_pieces(pieces(pattern, escape), t)
}

fn fold_char(c: char) -> (r: char)
    ensures
        r == fold(c),
{
    match c {
        'A' => 'a',
        'B' => 'b',
        'C' => 'c',
        'D' => 'd',
        'E' => 'e',
        'F' => 'f',
        'G' => 'g',
        'H' => 'h',
        'I' => 'i',
        'J' => 'j',
        'K' => 'k',
        'L' => 'l',
        'M' => 'm',
        'N' => 'n',
        'O' => 'o',
        'P' => 'p',
        'Q' => 'q',
        'R' => 'r',
        'S' => 's',
        'T' => 't',
        'U' => 'u',
        'V' => 'v',
        'W' => 'w',
        'X' => 'x',
        'Y' => 'y',
        'Z' => 'z',
        _ => c,
    }
}

fn read_pieces(pattern: &str, escape: Option<char>) -> (r: Vec<Piece<char>>)
    ensures
        r@ == pieces(pattern@, escape),
{
    let v = text::chars_of(pattern);
    let mut r: Vec<Piece<char>> = Vec::new();
    let mut i: usize = 0;
    assert(v@.skip(0) =~= v@);
    assert(r@ + pieces(v@, escape) =~= pieces(v@, escape));
    while i < v.len()
        invariant
            v@ == pattern@,
            i <= v@.len(),
            r@ + pieces(v@.skip(i as int), escape) == pieces(v@, escape),
        decreases v@.len() - i,
    {
        let c = v[i];
        let ghost before = r@;
        let ghost left = v@.skip(i as int);
        assert(left.drop_first() =~= v@.skip(i + 1));
        assert(left[0] == c);
        let escapes = match escape {
            Some(e) => e == c,
            None => false,
        };
        if escapes {
            if i + 1 == v.len() {
                r.push(Piece::Never);
                assert(r@ =~= before + pieces(left, escape));
                return r;
            }
            r.push(Piece::Just(v[i + 1]));
            assert(left.skip(2) =~= v@.skip(i + 2));
            assert(pieces(left, escape) == seq![Piece::Just(left[1])] + pieces(left.skip(2), escape));
            assert(r@ + pieces(v@.skip(i + 2), escape) =~= before + pieces(left, escape));
            i += 2;
        } else {
            if c == '%' {
                r.push(Piece::AnyRun);
            } else if c == '_' {
                r.push(Piece::AnyOne);
            } else {
                r.push(Piece::Just(c));
            }
            assert(pieces(left, escape) == seq![r@.last()] + pieces(left.drop_first(), escape));
            assert(r@ + pieces(v@.skip(i + 1), escape) =~= before + pieces(left, escape));
            i += 1;
        }
    }
    assert(r@ + pieces(v@.skip(v@.len() as int), escape) =~= r@);
    r
}

/// Whether `text LIKE pattern` holds.
pub fn like(t: &str, pattern: &str, escape: Option<char>) -> (r: bool)
    ensures
        r == is_like(t@, pattern@, escape),
{
    let p = read_pieces(pattern, escape);
    let v = text::chars_of(t);
    let n: usize = v.len();
    // `row[j]` tells whether the elements from `i` on describe the text from `j` on.
    let mut row: Vec<bool> = Vec::new();
    let mut j: usize = 0;
    while j < n
        invariant
            n == v@.len(),
            j <= n,
            row@.len() == j,
            forall|k: int| 0 <= k < j ==> !#[trigger] row@[k],
        decreases n - j,
    {
        row.push(false);
        j += 1;
    }
    row.push(true);
    let mut i: usize = p.len();
    assert forall|k: int| 0 <= k <= n implies #[trigger] row@[k] == matches_pieces(
        p@.skip(i as int),
        v@.skip(k),
    ) by {
        assert(p@.skip(i as int).len() == 0);
        assert(v@.skip(k).len() == n - k);
    }
    while i > 0
        invariant
            n == v@.len(),
            i <= p@.len(),
            row@.len() == n + 1,
            forall|k: int|
                0 <= k <= n ==> #[trigger] row@[k] == matches_pieces(p@.skip(i as int), v@.skip(k)),
        decreases i,
    {
        let piece = &p[i - 1];
        let ghost cur = p@.skip(i - 1);
        assert(cur.drop_first() =~= p@.skip(i as int));
        assert(cur[0] == *piece);
        let mut next: Vec<bool> = Vec::new();
        // From the end of the text to its start, so the values are pushed in reverse.
        let mut k: usize = row.len();
        while k > 0
            invariant
                n == v@.len(),
                1 <= i <= p@.len(),
                *piece == p@[i - 1],
                cur == p@.skip(i - 1),
                cur.drop_first() == p@.skip(i as int),
                cur[0] == *piece,
                cur.len() > 0,
                k <= n + 1,
                row@.len() == n + 1,
                next@.len() == n + 1 - k,
                forall|m: int|
                    0 <= m <= n ==> #[trigger] row@[m] == matches_pieces(
                        p@.skip(i as int),
                        v@.skip(m),
                    ),
                forall|m: int|
                    k <= m <= n ==> #[trigger] next@[n - m] == matches_pieces(cur, v@.skip(m)),
            decreases k,
        {
            let at: usize = k - 1;
            let ghost left = v@.skip(at as int);
            assert(at < n ==> left.drop_first() =~= v@.skip(at + 1));
            assert(left.len() == n - at);
            let here = match piece {
                Piece::AnyRun => row[at] || (at < n && next[n - at - 1]),
                Piece::AnyOne => at < n && row[at + 1],
                Piece::Just(c) => at < n && fold_char(v[at]) == fold_char(*c) && row[at + 1],
                Piece::Never => false,
            };
            proof {
                if at < n {
                    assert(next@[n - (at + 1)] == matches_pieces(cur, v@.skip(at + 1)));
                }
                assert(row@[at as int] == matches_pieces(cur.drop_first(), left));
                assert(here == matches_pieces(cur, left));
            }
            next.push(here);
            k -= 1;
        }
        let mut straight: Vec<bool> = Vec::new();
        let mut m: usize = 0;
        while m < next.len()
            invariant
                n == v@.len(),
                m <= n + 1,
                next@.len() == n + 1,
                straight@.len() == m,
                forall|q: int|
                    0 <= q <= n ==> #[trigger] next@[n - q] == matches_pieces(cur, v@.skip(q)),
                forall|q: int| 0 <= q < m ==> #[trigger] straight@[q] == matches_pieces(cur, v@.skip(q)),
            decreases n + 1 - m,
        {
            straight.push(next[n - m]);
            assert(next@[n - m] == matches_pieces(cur, v@.skip(m as int)));
            m += 1;
        }
        row = straight;
        i -= 1;
    }
    assert(p@.skip(0) =~= p@);
    assert(v@.skip(0) =~= v@);
    assert(row@[0] == matches_pieces(p@, v@));
    row[0]
}

/// The wildcards and the escape character of a keyword, each behind a backslash.
pub open spec fn escaped(s: Seq<char>) -> Seq<char>
    decreases s.len(),
{
    if s.len() == 0 {
        seq![]
    } else if s.last() == '\\' || s.last() == '%' || s.last() == '_' {
        escaped(s.drop_last()) + seq!['\\', s.last()]
    } else {
        escaped(s.drop_last()) + seq![s.last()]
    }
}

/// Escapes `%`, `_` and the backslash, so that the keyword can stand in a `LIKE` pattern whose
/// escape character is the backslash.
pub fn escape_like_wildcards(s: &str) -> (r: String)
    ensures
        r@ == escaped(s@),
{
    let v = text::chars_of(s);
    let mut r = String::new();
    let mut i: usize = 0;
    assert(escaped(v@.take(0)) =~= seq![]);
    while i < v.len()
        invariant
            v@ == s@,
            i <= v@.len(),
            r@ == escaped(v@.take(i as int)),
        decreases v@.len() - i,
    {
        let c = v[i];
        assert(v@.take(i + 1).drop_last() =~= v@.take(i as int));
        assert(v@.take(i + 1).last() == c);
        if c == '\\' || c == '%' || c == '_' {
            r.push('\\');
        }
        r.push(c);
        assert(r@ =~= escaped(v@.take(i + 1)));
        i += 1;
    }
    assert(v@.take(v@.len() as int) =~= v@);
    r
}

/// Each character of `s` as an element that stands for itself.
pub open spec fn literally(s: Seq<char>) -> Seq<Piece<char>> {
    s.map_values(|c: char| Piece::Just(c))
}

proof fn lemma_pieces_of_escaped(s: Seq<char>, tail: Seq<char>)
    ensures
        pieces(escaped(s) + tail, Some('\\')) == literally(s) + pieces(tail, Some('\\')),
    decreases s.len(),
{
    let esc = Some('\\');
    if s.len() == 0 {
        assert(escaped(s) + tail =~= tail);
        assert(literally(s) + pieces(tail, esc) =~= pieces(tail, esc));
    } else {
        let c = s.last();
        let one = if c == '\\' || c == '%' || c == '_' {
            seq!['\\', c]
        } else {
            seq![c]
        };
        let rest = one + tail;
        assert(escaped(s) + tail =~= escaped(s.drop_last()) + rest);
        lemma_pieces_of_escaped(s.drop_last(), rest);
        if one.len() == 2 {
            assert(rest.skip(2) =~= tail);
            assert(rest[1] == c);
        } else {
            assert(rest.drop_first() =~= tail);
            assert(rest[0] == c);
        }
        assert(pieces(rest, esc) =~= seq![Piece::Just(c)] + pieces(tail, esc));
        assert(literally(s) =~= literally(s.drop_last()).push(Piece::Just(c)));
        assert(literally(s) + pieces(tail, esc) =~= literally(s.drop_last()) + pieces(rest, esc));
    }
}

proof fn lemma_literal_prefix(s: Seq<char>, t: Seq<char>)
    ensures
        matches_pieces(literally(s) + seq![Piece::AnyRun], t) == folded(s).is_prefix_of(folded(t)),
    decreases s.len(), t.len(),
{
    let p = literally(s) + seq![Piece::AnyRun];
    if s.len() == 0 {
        assert(p.drop_first() =~= seq![]);
        assert(matches_pieces(p.drop_first(), t) == (t.len() == 0));
        assert(folded(s) =~= folded(t).subrange(0, 0));
        if t.len() > 0 {
            lemma_literal_prefix(s, t.drop_first());
            assert(folded(s) =~= folded(t.drop_first()).subrange(0, 0));
        }
    } else {
        assert(p.drop_first() =~= literally(s.drop_first()) + seq![Piece::AnyRun]);
        assert(p[0] == Piece::Just(s[0]));
        if t.len() > 0 {
            lemma_literal_prefix(s.drop_first(), t.drop_first());
            let a = folded(s);
            let b = folded(t);
            assert(folded(s.drop_first()) =~= a.drop_first());
            assert(folded(t.drop_first()) =~= b.drop_first());
            assert(a[0] == fold(s[0]) && b[0] == fold(t[0]));
            if a.is_prefix_of(b) {
                assert(b.subrange(0, a.len() as int)[0] == b[0]);
                assert(a.drop_first() =~= b.drop_first().subrange(0, a.len() - 1));
            }
            if a[0] == b[0] && a.drop_first().is_prefix_of(b.drop_first()) {
                assert forall|i: int| 0 <= i < a.len() implies a[i] == b[i] by {
                    if i > 0 {
                        assert(a.drop_first()[i - 1] == b.drop_first().subrange(
                            0,
                            a.len() - 1,
                        )[i - 1]);
                    }
                }
                assert(a =~= b.subrange(0, a.len() as int));
            }
        }
    }
}

proof fn lemma_any_run(rest: Seq<Piece<char>>, t: Seq<char>)
    ensures
        matches_pieces(seq![Piece::AnyRun] + rest, t) == (exists|j: int|
            0 <= j <= t.len() && matches_pieces(rest, #[trigger] t.skip(j))),
    decreases t.len(),
{
    let p = seq![Piece::AnyRun] + rest;
    assert(p.drop_first() =~= rest);
    assert(t.skip(0) =~= t);
    if t.len() > 0 {
        let u = t.drop_first();
        lemma_any_run(rest, u);
        if matches_pieces(p, u) {
            let j = choose|j: int| 0 <= j <= u.len() && matches_pieces(rest, #[trigger] u.skip(j));
            assert(u.skip(j) =~= t.skip(j + 1));
        }
        if exists|j: int| 0 <= j <= t.len() && matches_pieces(rest, #[trigger] t.skip(j)) {
            let j = choose|j: int| 0 <= j <= t.len() && matches_pieces(rest, #[trigger] t.skip(j));
            if j > 0 {
                assert(u.skip(j - 1) =~= t.skip(j));
            }
        }
    }
}

/// An escaped keyword between two `%` matches exactly the texts that hold the keyword, up to the
/// case of ASCII letters: no wildcard of the keyword acts as one.
pub proof fn lemma_escaped_keyword_is_literal(keyword: Seq<char>, t: Seq<char>)
    ensures
        is_like(t, seq!['%'] + escaped(keyword) + seq!['%'], Some('\\')) == text::has_part(
            folded(t),
            folded(keyword),
        ),
{
    let esc = Some('\\');
    let tail = seq!['%'];
    let pattern = seq!['%'] + escaped(keyword) + tail;
    assert(pattern.drop_first() =~= escaped(keyword) + tail);
    lemma_pieces_of_escaped(keyword, tail);
    assert(tail.drop_first() =~= seq![]);
    assert(pieces(tail.drop_first(), esc) =~= seq![]);
    assert(pieces(tail, esc) =~= seq![Piece::AnyRun]);
    let rest = literally(keyword) + seq![Piece::AnyRun];
    assert(pieces(pattern, esc) == seq![Piece::AnyRun] + rest);
    lemma_any_run(rest, t);
    let k = folded(keyword);
    if exists|j: int| 0 <= j <= t.len() && matches_pieces(rest, #[trigger] t.skip(j)) {
        let j = choose|j: int| 0 <= j <= t.len() && matches_pieces(rest, #[trigger] t.skip(j));
        lemma_literal_prefix(keyword, t.skip(j));
        assert(folded(t.skip(j)) =~= folded(t).skip(j));
        assert(folded(t).subrange(j, j + k.len()) =~= folded(t).skip(j).subrange(
            0,
            k.len() as int,
        ));
        assert(text::stands_at(folded(t), k, j));
    }
    if text::has_part(folded(t), k) {
        let j = choose|j: int| text::stands_at(folded(t), k, j);
        lemma_literal_prefix(keyword, t.skip(j));
        assert(folded(t.skip(j)) =~= folded(t).skip(j));
        assert(folded(t).subrange(j, j + k.len()) =~= folded(t).skip(j).subrange(
            0,
            k.len() as int,
        ));
        assert(matches_pieces(rest, t.skip(j)));
    }
}

/// The letters from `A` to `Z` are folded to those from `a` to `z`, and nothing else is.
pub proof fn lemma_folding_is_of_ascii_letters(s: Seq<char>, i: int)
    requires
        0 <= i < s.len(),
    ensures
        folded(s).len() == s.len(),
        ({
            let n = s[i] as u32;
            folded(s)[i] as u32 == if 0x41 <= n <= 0x5a {
                (n + 32) as u32
            } else {
                n
            }
        }),
{
}

/// What the elements of a pattern match, where `escape` is no wildcard: nothing is matched by
/// nothing; `%` by any run of characters; `_` by any one; an escape and a character, and every
/// other character, by that character, in either case where it is an ASCII letter; an escape at
/// the end by nothing at all.
pub proof fn lemma_patterns_match(
    t: Seq<char>,
    rest: Seq<char>,
    c: char,
    escape: Option<char>,
)
    requires
        escape != Some('%') && escape != Some('_'),
    ensures
        is_like(t, Seq::empty(), escape) == (t.len() == 0),
        is_like(t, seq!['%'] + rest, escape) == (exists|k: int|
            0 <= k <= t.len() && is_like(#[trigger] t.skip(k), rest, escape)),
        is_like(t, seq!['_'] + rest, escape) == (t.len() > 0 && is_like(
            t.drop_first(),
            rest,
            escape,
        )),
        ({
            let same = {
                let a = t[0] as u32;
                let b = c as u32;
                ||| a == b
                ||| 0x41 <= a <= 0x5a && b == a + 32
                ||| 0x41 <= b <= 0x5a && a == b + 32
            };
            let hit = t.len() > 0 && same && is_like(t.drop_first(), rest, escape);
            &&& c != '%' && c != '_' && escape != Some(c) ==> is_like(t, seq![c] + rest, escape)
                == hit
            &&& escape matches Some(x) ==> is_like(t, seq![x, c] + rest, escape) == hit
            &&& escape matches Some(x) ==> !is_like(t, seq![x], escape)
        }),
{
    assert(is_like(t, Seq::empty(), escape) == (t.len() == 0)) by {
        assert(pieces(Seq::empty(), escape) =~= seq![]);
    }
    assert((seq!['%'] + rest).drop_first() =~= rest);
    assert((seq!['_'] + rest).drop_first() =~= rest);
    assert((seq![c] + rest).drop_first() =~= rest);
    let p = pieces(rest, escape);
    lemma_any_run(p, t);
    let any = seq![Piece::<char>::AnyOne] + p;
    assert(any.drop_first() =~= p);
    let just = seq![Piece::Just(c)] + p;
    assert(just.drop_first() =~= p);
    if t.len() > 0 {
        lemma_same_fold(t[0], c);
    }
    match escape {
        Some(x) => {
            assert((seq![x, c] + rest).skip(2) =~= rest);
            assert((seq![x, c] + rest)[1] == c);
            assert(pieces(seq![x], escape) == seq![Piece::<char>::Never]);
        },
        None => {},
    }
}

proof fn lemma_same_fold(a: char, b: char)
    ensures
        (fold(a) == fold(b)) == {
            let m = a as u32;
            let n = b as u32;
            ||| m == n
            ||| 0x41 <= m <= 0x5a && n == m + 32
            ||| 0x41 <= n <= 0x5a && m == n + 32
        },
{
    assert(fold(a) as u32 == if 0x41 <= a as u32 <= 0x5a {
        (a as u32 + 32) as u32
    } else {
        a as u32
    });
    assert(fold(b) as u32 == if 0x41 <= b as u32 <= 0x5a {
        (b as u32 + 32) as u32
    } else {
        b as u32
    });
}

/// A keyword is escaped character by character: a backslash is put before each `%`, `_` and
/// backslash, and nothing else changes.
pub proof fn lemma_escaped_char_by_char(a: Seq<char>, b: Seq<char>, c: char)
    ensures
        escaped(a + b) == escaped(a) + escaped(b),
        c == '%' || c == '_' || c == '\\' ==> escaped(seq![c]) == seq!['\\', c],
        c != '%' && c != '_' && c != '\\' ==> escaped(seq![c]) == seq![c],
    decreases b.len(),
{
    assert(seq![c].drop_last() =~= seq![]);
    assert(escaped(seq![c].drop_last()) =~= seq![]);
    if c == '%' || c == '_' || c == '\\' {
        assert(escaped(seq![c]) =~= seq!['\\', c]);
    } else {
        assert(escaped(seq![c]) =~= seq![c]);
    }
    if b.len() == 0 {
        assert(a + b =~= a);
        assert(escaped(a) + escaped(b) =~= escaped(a));
    } else {
        assert((a + b).drop_last() =~= a + b.drop_last());
        lemma_escaped_char_by_char(a, b.drop_last(), c);
        assert(escaped(a + b) =~= escaped(a) + escaped(b));
    }
}

} // verus!
