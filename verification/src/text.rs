//! Texts as sequences of characters: white space, trimming, words, joining and substrings.
use vstd::prelude::*;
use vstd::string::*;
use crate::bytes;

verus! {

/// The Unicode `White_Space` property.
pub open spec fn is_white_space(c: char) -> bool {
    ||| '\u{9}' <= c <= '\u{d}'
    ||| c == ' '
    ||| c == '\u{85}'
    ||| c == '\u{a0}'
    ||| c == '\u{1680}'
    ||| '\u{2000}' <= c <= '\u{200a}'
    ||| c == '\u{2028}'
    ||| c == '\u{2029}'
    ||| c == '\u{202f}'
    ||| c == '\u{205f}'
    ||| c == '\u{3000}'
}

/// Whether `c` is white space.
pub fn is_whitespace(c: char) -> (r: bool)
    ensures
        r == is_white_space(c),
{
    ('\u{9}' <= c && c <= '\u{d}') || c == ' ' || c == '\u{85}' || c == '\u{a0}' || c == '\u{1680}'
        || ('\u{2000}' <= c && c <= '\u{200a}') || c == '\u{2028}' || c == '\u{2029}' || c == '\u{202f}'
        || c == '\u{205f}' || c == '\u{3000}'
}

/// `String::push` appends one character.
pub assume_specification[ String::push ](s: &mut String, c: char)
    ensures
        final(s)@ == old(s)@.push(c),
;

/// The characters of `s`, in order.
pub fn chars_of(s: &str) -> (v: Vec<char>)
    ensures
        v@ == s@,
{
    let mut v: Vec<char> = Vec::new();
    for c in it: s.chars()
        invariant
            it.seq() == s@,
            v@ == s@.take(it.index()),
    {
        proof {
            assert(s@.take(it.index() + 1) =~= s@.take(it.index()).push(s@[it.index()]));
        }
        v.push(c);
    }
    assert(s@.take(s@.len() as int) =~= s@);
    v
}

/// The text made of the characters `v`.
pub fn text_of(v: &[char]) -> (s: String)
    ensures
        s@ == v@,
{
    let mut s = String::new();
    let mut i: usize = 0;
    while i < v.len()
        invariant
            i <= v@.len(),
            s@ == v@.take(i as int),
        decreases v@.len() - i,
    {
        assert(v@.take(i + 1) =~= v@.take(i as int).push(v@[i as int]));
        s.push(v[i]);
        i += 1;
    }
    assert(v@.take(v@.len() as int) =~= v@);
    s
}

/// The texts that a list of strings holds.
pub open spec fn texts(v: Seq<String>) -> Seq<Seq<char>> {
    v.map_values(|s: String| s@)
}

/// The texts that a list of string slices holds.
pub open spec fn slices(v: Seq<&str>) -> Seq<Seq<char>> {
    v.map_values(|s: &str| s@)
}

/// The text in an optional string.
pub open spec fn opt_text(s: Option<String>) -> Option<Seq<char>> {
    match s {
        Some(t) => Some(t@),
        None => None,
    }
}

/// The text in an optional string slice.
pub open spec fn opt_slice(s: Option<&str>) -> Option<Seq<char>> {
    match s {
        Some(t) => Some(t@),
        None => None,
    }
}

/// A copy of an optional string.
pub fn copy_opt(s: &Option<String>) -> (r: Option<String>)
    ensures
        r == *s,
{
    match s {
        Some(t) => Some(t.clone()),
        None => None,
    }
}

/// A string of its own for an optional text.
pub fn own_opt(s: Option<&str>) -> (r: Option<String>)
    ensures
        opt_text(r) == opt_slice(s),
{
    match s {
        Some(t) => Some(t.to_owned()),
        None => None,
    }
}

/// A copy of a list of strings.
pub fn copy_texts(v: &Vec<String>) -> (r: Vec<String>)
    ensures
        r@ == v@,
{
    let mut r: Vec<String> = Vec::new();
    let mut i: usize = 0;
    while i < v.len()
        invariant
            i <= v@.len(),
            r@ == v@.take(i as int),
        decreases v@.len() - i,
    {
        r.push(v[i].clone());
        assert(r@ =~= v@.take(i + 1));
        i += 1;
    }
    assert(v@.take(v@.len() as int) =~= v@);
    r
}

// ---------------------------------------------------------------------------
// Trimming and words
// ---------------------------------------------------------------------------

/// `s` without its leading white space.
pub open spec fn trim_start(s: Seq<char>) -> Seq<char>
    decreases s.len(),
{
    if s.len() > 0 && is_white_space(s[0]) {
        trim_start(s.drop_first())
    } else {
        s
    }
}

/// `s` without its trailing white space.
pub open spec fn trim_end(s: Seq<char>) -> Seq<char>
    decreases s.len(),
{
    if s.len() > 0 && is_white_space(s.last()) {
        trim_end(s.drop_last())
    } else {
        s
    }
}

/// `s` without its leading and trailing white space.
pub open spec fn trimmed(s: Seq<char>) -> Seq<char> {
    trim_end(trim_start(s))
}

/// The text without its leading and trailing white space.
pub fn trim(s: &str) -> (r: String)
    ensures
        r@ == trimmed(s@),
{
    let v = chars_of(s);
    let mut i: usize = 0;
    assert(v@.skip(0) =~= v@);
    while i < v.len() && is_whitespace(v[i])
        invariant
            i <= v@.len(),
            trim_start(v@.skip(i as int)) == trim_start(v@),
        decreases v@.len() - i,
    {
        assert(v@.skip(i as int).drop_first() =~= v@.skip(i + 1));
        i += 1;
    }
    let ghost kept = v@.skip(i as int);
    assert(trim_start(v@) == kept);
    let mut j: usize = v.len();
    assert(v@.subrange(i as int, j as int) =~= kept);
    while j > i && is_whitespace(v[j - 1])
        invariant
            i <= j <= v@.len(),
            trim_end(v@.subrange(i as int, j as int)) == trim_end(kept),
        decreases j,
    {
        assert(v@.subrange(i as int, j as int).drop_last() =~= v@.subrange(i as int, j - 1));
        j -= 1;
    }
    assert(trim_end(kept) == v@.subrange(i as int, j as int));
    text_of(vstd::slice::slice_subrange(v.as_slice(), i, j))
}

/// What is trimmed has no white space at either end, so trimming it again changes nothing.
pub proof fn lemma_trimmed_is_trimmed(s: Seq<char>)
    ensures
        trimmed(trimmed(s)) == trimmed(s),
        trimmed(s).len() > 0 ==> !is_white_space(trimmed(s)[0]) && !is_white_space(trimmed(s).last()),
{
    let t = trim_start(s);
    lemma_trim_start(s);
    lemma_trim_end(t);
    let r = trim_end(t);
    if r.len() > 0 {
        assert(r[0] == t[0]);
    }
}

proof fn lemma_trim_start(s: Seq<char>)
    ensures
        trim_start(s).len() > 0 ==> !is_white_space(trim_start(s)[0]),
    decreases s.len(),
{
    if s.len() > 0 && is_white_space(s[0]) {
        lemma_trim_start(s.drop_first());
    }
}

proof fn lemma_trim_end(s: Seq<char>)
    ensures
        trim_end(s).is_prefix_of(s),
        trim_end(s).len() > 0 ==> !is_white_space(trim_end(s).last()),
    decreases s.len(),
{
    if s.len() > 0 && is_white_space(s.last()) {
        lemma_trim_end(s.drop_last());
        let r = trim_end(s);
        assert(r =~= s.subrange(0, r.len() as int));
    } else {
        assert(s =~= s.subrange(0, s.len() as int));
    }
}

/// The words of `s`: its longest runs of characters that are not white space, in order.
pub open spec fn words(s: Seq<char>) -> Seq<Seq<char>>
    decreases s.len(),
{
    if s.len() == 0 {
        seq![]
    } else {
        let before = words(s.drop_last());
        if is_white_space(s.last()) {
            before
        } else if s.len() == 1 || is_white_space(s[s.len() - 2]) {
            before.push(seq![s.last()])
        } else {
            before.drop_last().push(before.last().push(s.last()))
        }
    }
}

proof fn lemma_words_skip_space(s: Seq<char>)
    requires
        s.len() > 0,
        is_white_space(s[0]),
    ensures
        words(s) == words(s.drop_first()),
    decreases s.len(),
{
    let rest = s.drop_first();
    if s.len() == 1 {
        assert(words(s.drop_last()) =~= seq![]);
    } else {
        lemma_words_skip_space(s.drop_last());
        assert(s.drop_last().drop_first() =~= rest.drop_last());
        assert(rest.last() == s.last());
        if rest.len() > 1 {
            assert(rest[rest.len() - 2] == s[s.len() - 2]);
        }
    }
}

/// Trimming takes no word away and changes none.
pub proof fn lemma_words_of_trimmed(s: Seq<char>)
    ensures
        words(trimmed(s)) == words(s),
{
    lemma_words_of_trim_start(s);
    lemma_words_of_trim_end(trim_start(s));
}

proof fn lemma_words_of_trim_start(s: Seq<char>)
    ensures
        words(trim_start(s)) == words(s),
    decreases s.len(),
{
    if s.len() > 0 && is_white_space(s[0]) {
        lemma_words_skip_space(s);
        lemma_words_of_trim_start(s.drop_first());
    }
}

proof fn lemma_words_of_trim_end(s: Seq<char>)
    ensures
        words(trim_end(s)) == words(s),
    decreases s.len(),
{
    if s.len() > 0 && is_white_space(s.last()) {
        lemma_words_of_trim_end(s.drop_last());
    }
}

/// No word is empty, and no word holds white space.
pub proof fn lemma_words_are_solid(s: Seq<char>)
    ensures
        forall|i: int| 0 <= i < words(s).len() ==> (#[trigger] words(s)[i]).len() > 0,
        forall|i: int, k: int|
            0 <= i < words(s).len() && 0 <= k < words(s)[i].len() ==> !is_white_space(
                #[trigger] words(s)[i][k],
            ),
        s.len() > 0 && !is_white_space(s.last()) ==> words(s).len() > 0,
    decreases s.len(),
{
    if s.len() > 0 {
        lemma_words_are_solid(s.drop_last());
        let before = words(s.drop_last());
        assert forall|i: int| 0 <= i < words(s).len() implies (#[trigger] words(s)[i]).len() > 0 by {
            assert(i < before.len() ==> before[i].len() > 0);
        }
        assert forall|i: int, k: int|
            0 <= i < words(s).len() && 0 <= k < words(s)[i].len() implies !is_white_space(
            #[trigger] words(s)[i][k],
        ) by {
            if i < before.len() && k < before[i].len() {
                assert(!is_white_space(before[i][k]));
            }
        }
    }
}

/// Every character of a word occurs in the text.
pub proof fn lemma_words_hold_its_chars(s: Seq<char>)
    ensures
        forall|i: int, k: int|
            0 <= i < words(s).len() && 0 <= k < words(s)[i].len() ==> s.contains(
                #[trigger] words(s)[i][k],
            ),
    decreases s.len(),
{
    if s.len() > 0 {
        let front = s.drop_last();
        lemma_words_hold_its_chars(front);
        lemma_words_are_solid(front);
        let before = words(front);
        assert forall|i: int, k: int|
            0 <= i < words(s).len() && 0 <= k < words(s)[i].len() implies s.contains(
            #[trigger] words(s)[i][k],
        ) by {
            let c = words(s)[i][k];
            if i < before.len() && k < before[i].len() {
                assert(before[i][k] == c);
                let j = choose|j: int| 0 <= j < front.len() && front[j] == c;
                assert(s[j] == c);
            } else {
                assert(s[s.len() - 1] == c);
            }
        }
    }
}

/// The words of the text.
pub fn split_words(s: &str) -> (r: Vec<String>)
    ensures
        texts(r@) == words(s@),
{
    let v = chars_of(s);
    let mut out: Vec<String> = Vec::new();
    let mut cur: String = String::new();
    let mut inside = false;
    let mut i: usize = 0;
    assert(words(v@.take(0)) =~= texts(out@));
    while i < v.len()
        invariant
            i <= v@.len(),
            inside == (i > 0 && !is_white_space(v@[i - 1])),
            inside ==> words(v@.take(i as int)) == texts(out@).push(cur@),
            !inside ==> words(v@.take(i as int)) == texts(out@) && cur@ == Seq::<char>::empty(),
        decreases v@.len() - i,
    {
        let c = v[i];
        let ghost before = v@.take(i as int);
        let ghost after = v@.take(i + 1);
        assert(after.drop_last() =~= before);
        if is_whitespace(c) {
            if inside {
                let ghost done = texts(out@).push(cur@);
                out.push(cur);
                assert(texts(out@) =~= done);
                cur = String::new();
                inside = false;
            }
        } else {
            assert(inside ==> words(before).drop_last() =~= texts(out@));
            assert(!inside ==> Seq::<char>::empty().push(c) =~= seq![c]);
            cur.push(c);
            inside = true;
            assert(words(after) =~= texts(out@).push(cur@));
        }
        i += 1;
    }
    assert(v@.take(v@.len() as int) =~= v@);
    if inside {
        let ghost done = texts(out@).push(cur@);
        out.push(cur);
        assert(texts(out@) =~= done);
    }
    out
}

/// The parts put together with `sep` between each two neighbours.
pub open spec fn joined(parts: Seq<Seq<char>>, sep: Seq<char>) -> Seq<char>
    decreases parts.len(),
{
    if parts.len() == 0 {
        seq![]
    } else if parts.len() == 1 {
        parts[0]
    } else {
        joined(parts.drop_last(), sep) + sep + parts.last()
    }
}

/// Puts the parts together with `sep` between each two neighbours.
pub fn join(parts: &Vec<String>, sep: &str) -> (r: String)
    ensures
        r@ == joined(texts(parts@), sep@),
{
    let mut r = String::new();
    let mut i: usize = 0;
    let ghost all = texts(parts@);
    assert(all.take(0) =~= seq![]);
    while i < parts.len()
        invariant
            i <= parts@.len(),
            all == texts(parts@),
            r@ == joined(all.take(i as int), sep@),
        decreases parts@.len() - i,
    {
        assert(all.take(i + 1).drop_last() =~= all.take(i as int));
        assert(all.take(i + 1).last() == parts@[i as int]@);
        let ghost before = r@;
        if i > 0 {
            r.append(sep);
        }
        r.append(parts[i].as_str());
        assert(i == 0 ==> r@ =~= all.take(i + 1)[0]);
        assert(i > 0 ==> r@ =~= before + sep@ + parts@[i as int]@);
        i += 1;
    }
    assert(all.take(all.len() as int) =~= all);
    r
}

// ---------------------------------------------------------------------------
// Substrings
// ---------------------------------------------------------------------------

/// `part` stands in `s` from position `at` on.
pub open spec fn stands_at(s: Seq<char>, part: Seq<char>, at: int) -> bool {
    &&& 0 <= at
    &&& at + part.len() <= s.len()
    &&& s.subrange(at, at + part.len()) == part
}

/// `part` stands somewhere in `s`.
pub open spec fn has_part(s: Seq<char>, part: Seq<char>) -> bool {
    exists|at: int| stands_at(s, part, at)
}

/// Whether `part` stands somewhere in `s`.
pub fn contains_text(s: &str, part: &str) -> (r: bool)
    ensures
        r == has_part(s@, part@),
{
    let v = chars_of(s);
    let p = chars_of(part);
    if p.len() > v.len() {
        return false;
    }
    let n: usize = v.len();
    let last: usize = n - p.len();
    let mut at: usize = 0;
    while at <= last
        invariant
            v@ == s@,
            p@ == part@,
            p@.len() <= v@.len(),
            n == v@.len(),
            last == v@.len() - p@.len(),
            at <= last + 1,
            forall|k: int| 0 <= k < at ==> !stands_at(s@, part@, k),
        decreases last + 1 - at,
    {
        let mut k: usize = 0;
        while k < p.len() && v[at + k] == p[k]
            invariant
                at + p@.len() <= n,
                n == v@.len(),
                k <= p@.len(),
                forall|j: int| 0 <= j < k ==> v@[at + j] == p@[j],
            decreases p@.len() - k,
        {
            k += 1;
        }
        if k == p.len() {
            assert(v@.subrange(at as int, at + p@.len()) =~= p@);
            assert(stands_at(s@, part@, at as int));
            return true;
        }
        assert(!stands_at(s@, part@, at as int)) by {
            assert(v@.subrange(at as int, at + p@.len())[k as int] == v@[at + k]);
        }
        if at == last {
            return false;
        }
        at += 1;
    }
    false
}

/// Whether the character `c` occurs in `s`.
pub fn contains_char(s: &str, c: char) -> (r: bool)
    ensures
        r == s@.contains(c),
{
    let v = chars_of(s);
    let mut i: usize = 0;
    while i < v.len()
        invariant
            v@ == s@,
            i <= v@.len(),
            forall|k: int| 0 <= k < i ==> v@[k] != c,
        decreases v@.len() - i,
    {
        if v[i] == c {
            assert(s@[i as int] == c);
            return true;
        }
        i += 1;
    }
    false
}

/// Whether the text begins with `part`.
pub fn starts_with(s: &str, part: &str) -> (r: bool)
    ensures
        r == part@.is_prefix_of(s@),
{
    let v = chars_of(s);
    let p = chars_of(part);
    if p.len() > v.len() {
        return false;
    }
    let mut k: usize = 0;
    while k < p.len()
        invariant
            v@ == s@,
            p@ == part@,
            p@.len() <= v@.len(),
            k <= p@.len(),
            forall|j: int| 0 <= j < k ==> v@[j] == p@[j],
        decreases p@.len() - k,
    {
        if v[k] != p[k] {
            assert(s@.subrange(0, part@.len() as int)[k as int] == v@[k as int]);
            return false;
        }
        k += 1;
    }
    assert(s@.subrange(0, part@.len() as int) =~= part@);
    true
}

/// Whether the text ends with `part`.
pub fn ends_with(s: &str, part: &str) -> (r: bool)
    ensures
        r == part@.is_suffix_of(s@),
{
    let v = chars_of(s);
    let p = chars_of(part);
    if p.len() > v.len() {
        return false;
    }
    let total: usize = v.len();
    let from: usize = total - p.len();
    let ghost ending = s@.subrange(from as int, s@.len() as int);
    let mut k: usize = 0;
    while k < p.len()
        invariant
            v@ == s@,
            p@ == part@,
            from + p@.len() == total,
            total == v@.len(),
            ending == s@.subrange(from as int, s@.len() as int),
            k <= p@.len(),
            forall|j: int| 0 <= j < k ==> v@[from + j] == p@[j],
        decreases p@.len() - k,
    {
        if v[from + k] != p[k] {
            assert(ending[k as int] == v@[from + k]);
            return false;
        }
        k += 1;
    }
    assert(ending =~= part@);
    true
}

// ---------------------------------------------------------------------------
// Numbers
// ---------------------------------------------------------------------------

/// The decimal digit of a number below ten.
pub open spec fn decimal_digit(n: nat) -> char {
    ('0' as nat + n) as char
}

/// A number in decimal digits.
pub open spec fn decimal(n: nat) -> Seq<char>
    decreases n,
{
    if n < 10 {
        seq![decimal_digit(n)]
    } else {
        decimal(n / 10).push(decimal_digit(n % 10))
    }
}

/// A number in decimal digits, with a minus sign before them where it is negative.
pub open spec fn signed_decimal(n: int) -> Seq<char> {
    if n < 0 {
        seq!['-'] + decimal((-n) as nat)
    } else {
        decimal(n as nat)
    }
}

/// A number in decimal digits, with a minus sign before them where it is negative.
pub fn to_signed_decimal(n: i64) -> (r: String)
    ensures
        r@ == signed_decimal(n as int),
{
    if n < 0 {
        let mut r = String::new();
        r.push('-');
        r.append(to_decimal((-(n as i128)) as u64).as_str());
        assert(r@ =~= signed_decimal(n as int));
        r
    } else {
        to_decimal(n as u64)
    }
}

/// A number in decimal digits.
pub fn to_decimal(n: u64) -> (r: String)
    ensures
        r@ == decimal(n as nat),
    decreases n,
{
    let digit: char = (48u8 + (n % 10) as u8) as char;
    if n < 10 {
        let mut r = String::new();
        r.push(digit);
        assert(r@ =~= decimal(n as nat));
        r
    } else {
        let mut r = to_decimal(n / 10);
        r.push(digit);
        r
    }
}

// ---------------------------------------------------------------------------
// Sorted names
// ---------------------------------------------------------------------------

/// `name` put in its place in a sorted list, unless it is there.
pub open spec fn with_name(s: Seq<Seq<char>>, name: Seq<char>) -> Seq<Seq<char>>
    decreases s.len(),
{
    if s.len() == 0 {
        seq![name]
    } else if s.last() == name {
        s
    } else if bytes::text_before(name, s.last()) {
        with_name(s.drop_last(), name).push(s.last())
    } else {
        s.push(name)
    }
}

/// The different texts of a list, in the order of their bytes.
pub open spec fn names(s: Seq<Seq<char>>) -> Seq<Seq<char>>
    decreases s.len(),
{
    if s.len() == 0 {
        seq![]
    } else {
        with_name(names(s.drop_last()), s.last())
    }
}

/// Each text comes before the next.
pub open spec fn is_ascending(s: Seq<Seq<char>>) -> bool {
    forall|i: int, j: int| 0 <= i < j < s.len() ==> bytes::text_before(#[trigger] s[i], #[trigger] s[j])
}

proof fn lemma_with_name(s: Seq<Seq<char>>, name: Seq<char>)
    requires
        is_ascending(s),
    ensures
        is_ascending(with_name(s, name)),
        with_name(s, name).contains(name),
        forall|i: int| 0 <= i < s.len() ==> with_name(s, name).contains(#[trigger] s[i]),
        forall|i: int|
            0 <= i < with_name(s, name).len() ==> (#[trigger] with_name(s, name)[i] == name
                || s.contains(with_name(s, name)[i])),
    decreases s.len(),
{
    let out = with_name(s, name);
    if s.len() == 0 {
        assert(out[0] == name);
    } else if s.last() == name {
        assert(out[s.len() - 1] == name);
        assert forall|i: int| 0 <= i < s.len() implies out.contains(#[trigger] s[i]) by {
            assert(out[i] == s[i]);
        }
    } else if bytes::text_before(name, s.last()) {
        let front = s.drop_last();
        assert forall|i: int, j: int| 0 <= i < j < front.len() implies bytes::text_before(
            #[trigger] front[i],
            #[trigger] front[j],
        ) by {
            assert(front[i] == s[i] && front[j] == s[j]);
        }
        lemma_with_name(front, name);
        let inner = with_name(front, name);
        assert(out == inner.push(s.last()));
        assert forall|i: int, j: int| 0 <= i < j < out.len() implies bytes::text_before(
            #[trigger] out[i],
            #[trigger] out[j],
        ) by {
            if j == inner.len() {
                assert(out[i] == inner[i]);
                if inner[i] != name {
                    let k = choose|k: int| 0 <= k < front.len() && front[k] == inner[i];
                    assert(front[k] == s[k] && s.last() == s[s.len() - 1]);
                }
            } else {
                assert(out[i] == inner[i] && out[j] == inner[j]);
            }
        }
        let at = choose|at: int| 0 <= at < inner.len() && inner[at] == name;
        assert(out[at] == name);
        assert forall|i: int| 0 <= i < s.len() implies out.contains(#[trigger] s[i]) by {
            if i < front.len() {
                assert(front[i] == s[i]);
                let k = choose|k: int| 0 <= k < inner.len() && inner[k] == s[i];
                assert(out[k] == s[i]);
            } else {
                assert(out[out.len() - 1] == s[i]);
            }
        }
        assert forall|i: int| 0 <= i < out.len() implies (#[trigger] out[i] == name || s.contains(
            out[i],
        )) by {
            if i < inner.len() {
                assert(out[i] == inner[i]);
                if inner[i] != name {
                    let k = choose|k: int| 0 <= k < front.len() && front[k] == inner[i];
                    assert(s[k] == out[i]);
                }
            } else {
                assert(s[s.len() - 1] == out[i]);
            }
        }
    } else {
        assert(out[s.len() as int] == name);
        assert forall|i: int, j: int| 0 <= i < j < out.len() implies bytes::text_before(
            #[trigger] out[i],
            #[trigger] out[j],
        ) by {
            if j == s.len() {
                assert(out[i] == s[i]);
                bytes::lemma_text_total(name, s.last());
                if i < s.len() - 1 {
                    assert(bytes::text_before(s[i], s[s.len() - 1]));
                    bytes::lemma_text_transitive(s[i], s.last(), name);
                }
            } else {
                assert(out[i] == s[i] && out[j] == s[j]);
            }
        }
        assert forall|i: int| 0 <= i < s.len() implies out.contains(#[trigger] s[i]) by {
            assert(out[i] == s[i]);
        }
        assert forall|i: int| 0 <= i < out.len() implies (#[trigger] out[i] == name || s.contains(
            out[i],
        )) by {
            if i < s.len() {
                assert(s[i] == out[i]);
            }
        }
    }
}

/// The names of a list are in ascending order, without repetition, and are the texts of the list.
pub proof fn lemma_names(s: Seq<Seq<char>>)
    ensures
        is_ascending(names(s)),
        forall|i: int| 0 <= i < s.len() ==> names(s).contains(#[trigger] s[i]),
        forall|i: int| 0 <= i < names(s).len() ==> s.contains(#[trigger] names(s)[i]),
    decreases s.len(),
{
    if s.len() > 0 {
        let front = s.drop_last();
        lemma_names(front);
        lemma_with_name(names(front), s.last());
        assert forall|i: int| 0 <= i < s.len() implies names(s).contains(#[trigger] s[i]) by {
            if i < front.len() {
                assert(front[i] == s[i]);
                let k = choose|k: int| 0 <= k < names(front).len() && names(front)[k] == s[i];
                assert(names(s).contains(names(front)[k]));
            }
        }
        assert forall|i: int| 0 <= i < names(s).len() implies s.contains(#[trigger] names(s)[i]) by {
            let x = names(s)[i];
            if x == s.last() {
                assert(s[s.len() - 1] == x);
            } else {
                let k = choose|k: int| 0 <= k < names(front).len() && names(front)[k] == x;
                let j = choose|j: int| 0 <= j < front.len() && front[j] == names(front)[k];
                assert(s[j] == x);
            }
        }
    }
}

/// Puts `name` in its place in a sorted list, unless it is there.
fn add_name(list: &mut Vec<String>, name: &str)
    ensures
        texts(final(list)@) == with_name(texts(old(list)@), name@),
{
    let ghost s = texts(list@);
    let mut k: usize = list.len();
    assert(s.take(k as int) =~= s);
    assert(with_name(s, name@) =~= with_name(s.take(k as int), name@) + s.skip(k as int));
    while k > 0 && bytes::is_before(name, list[k - 1].as_str())
        invariant
            k <= list@.len(),
            s == texts(list@),
            with_name(s, name@) == with_name(s.take(k as int), name@) + s.skip(k as int),
        decreases k,
    {
        proof {
            let front = s.take(k as int);
            assert(front.last() == s[k - 1]);
            assert(front.drop_last() =~= s.take(k - 1));
            assert(s.skip(k - 1) =~= seq![s[k - 1]] + s.skip(k as int));
            if front.last() == name@ {
                bytes::lemma_before_irreflexive(vstd::utf8::encode_utf8(name@));
            }
            assert(with_name(front, name@) + s.skip(k as int) =~= with_name(s.take(k - 1), name@)
                + s.skip(k - 1));
        }
        k -= 1;
    }
    if k > 0 && bytes::same_text(list[k - 1].as_str(), name) {
        assert(s.take(k as int).last() == s[k - 1]);
        assert(s =~= s.take(k as int) + s.skip(k as int));
        return;
    }
    proof {
        if k > 0 {
            assert(s.take(k as int).last() == s[k - 1]);
        }
        assert(with_name(s.take(k as int), name@) =~= s.take(k as int).push(name@));
    }
    list.insert(k, name.to_owned());
    assert(texts(list@) =~= s.take(k as int).push(name@) + s.skip(k as int));
}

/// The different texts of a list, in the order of their bytes.
pub fn sorted_names(v: &Vec<&str>) -> (r: Vec<String>)
    ensures
        texts(r@) == names(slices(v@)),
{
    let mut r: Vec<String> = Vec::new();
    let mut i: usize = 0;
    let ghost all = slices(v@);
    assert(texts(r@) =~= names(all.take(0)));
    while i < v.len()
        invariant
            i <= v@.len(),
            all == slices(v@),
            texts(r@) == names(all.take(i as int)),
        decreases v@.len() - i,
    {
        assert(all.take(i + 1).drop_last() =~= all.take(i as int));
        assert(all.take(i + 1).last() == v@[i as int]@);
        add_name(&mut r, v[i]);
        i += 1;
    }
    assert(all.take(all.len() as int) =~= all);
    r
}

// ---------------------------------------------------------------------------
// What these operations keep
// ---------------------------------------------------------------------------

/// White space is what Unicode counts as such.
pub proof fn lemma_white_space(c: char)
    ensures
        is_white_space(c) == {
            let n = c as u32;
            ||| 0x9 <= n <= 0xd
            ||| n == 0x20
            ||| n == 0x85
            ||| n == 0xa0
            ||| n == 0x1680
            ||| 0x2000 <= n <= 0x200a
            ||| n == 0x2028
            ||| n == 0x2029
            ||| n == 0x202f
            ||| n == 0x205f
            ||| n == 0x3000
        },
{
}

proof fn lemma_trim_start_from(s: Seq<char>) -> (i: int)
    ensures
        0 <= i <= s.len(),
        trim_start(s) == s.skip(i),
        forall|k: int| 0 <= k < i ==> is_white_space(#[trigger] s[k]),
    decreases s.len(),
{
    if s.len() > 0 && is_white_space(s[0]) {
        let rest = s.drop_first();
        let i = lemma_trim_start_from(rest);
        assert(rest.skip(i) =~= s.skip(i + 1));
        assert forall|k: int| 0 <= k < i + 1 implies is_white_space(#[trigger] s[k]) by {
            if k > 0 {
                assert(rest[k - 1] == s[k]);
            }
        }
        i + 1
    } else {
        assert(s.skip(0) =~= s);
        0
    }
}

proof fn lemma_trim_end_to(s: Seq<char>) -> (j: int)
    ensures
        0 <= j <= s.len(),
        trim_end(s) == s.take(j),
        forall|k: int| j <= k < s.len() ==> is_white_space(#[trigger] s[k]),
    decreases s.len(),
{
    if s.len() > 0 && is_white_space(s.last()) {
        let front = s.drop_last();
        let j = lemma_trim_end_to(front);
        assert(front.take(j) =~= s.take(j));
        assert forall|k: int| j <= k < s.len() implies is_white_space(#[trigger] s[k]) by {
            if k < front.len() {
                assert(front[k] == s[k]);
            }
        }
        j
    } else {
        assert(s.take(s.len() as int) =~= s);
        s.len() as int
    }
}

/// Trimming takes white space from the two ends and nothing else: it gives the part from `r.0` to
/// `r.1`, which begins and ends with other characters, and all outside it is white space.
pub proof fn lemma_trimming_takes_only_white_space(s: Seq<char>) -> (r: (int, int))
    ensures
        0 <= r.0 <= r.1 <= s.len(),
        trimmed(s) == s.subrange(r.0, r.1),
        forall|k: int| 0 <= k < r.0 ==> is_white_space(#[trigger] s[k]),
        forall|k: int| r.1 <= k < s.len() ==> is_white_space(#[trigger] s[k]),
        r.0 < r.1 ==> !is_white_space(s[r.0]) && !is_white_space(s[r.1 - 1]),
{
    let i = lemma_trim_start_from(s);
    let t = trim_start(s);
    let j = lemma_trim_end_to(t);
    assert(t.take(j) =~= s.subrange(i, i + j));
    assert forall|k: int| i + j <= k < s.len() implies is_white_space(#[trigger] s[k]) by {
        assert(t[k - i] == s[k]);
    }
    lemma_trimmed_is_trimmed(s);
    if j > 0 {
        assert(trimmed(s)[0] == s[i]);
        assert(trimmed(s).last() == s[i + j - 1]);
    }
    (i, i + j)
}

/// White space parts words: the words of two texts with white space between them are the words of
/// the first and those of the second.
pub proof fn lemma_words_are_parted_by_white_space(a: Seq<char>, w: char, b: Seq<char>)
    requires
        is_white_space(w),
    ensures
        words(a + seq![w] + b) == words(a) + words(b),
    decreases b.len(),
{
    let s = a + seq![w] + b;
    if b.len() == 0 {
        assert(s.drop_last() =~= a);
        assert(words(s) =~= words(a) + words(b));
    } else {
        let front = b.drop_last();
        lemma_words_are_parted_by_white_space(a, w, front);
        assert(s.drop_last() =~= a + seq![w] + front);
        assert(s.last() == b.last());
        lemma_words_are_solid(front);
        let before = words(a) + words(front);
        if is_white_space(b.last()) {
        } else if b.len() == 1 || is_white_space(b[b.len() - 2]) {
            assert(is_white_space(s[s.len() - 2]));
            assert(before.push(seq![b.last()]) =~= words(a) + words(b));
        } else {
            assert(s[s.len() - 2] == b[b.len() - 2]);
            assert(front.last() == b[b.len() - 2]);
            assert(before.last() == words(front).last());
            assert(before.drop_last().push(before.last().push(b.last())) =~= words(a) + words(b));
        }
    }
}

/// A text without white space is one word, whatever else it holds; an empty text has none.
pub proof fn lemma_solid_text_is_one_word(s: Seq<char>)
    requires
        forall|i: int| 0 <= i < s.len() ==> !is_white_space(#[trigger] s[i]),
    ensures
        words(s) == if s.len() == 0 {
            Seq::<Seq<char>>::empty()
        } else {
            seq![s]
        },
    decreases s.len(),
{
    if s.len() > 0 {
        let front = s.drop_last();
        assert forall|i: int| 0 <= i < front.len() implies !is_white_space(#[trigger] front[i]) by {
            assert(front[i] == s[i]);
        }
        lemma_solid_text_is_one_word(front);
        assert(!is_white_space(s[s.len() - 1]));
        if s.len() == 1 {
            assert(words(front) =~= seq![]);
            assert(seq![s.last()] =~= s);
            assert(words(s) =~= seq![s]);
        } else {
            assert(!is_white_space(s[s.len() - 2]));
            assert(words(front) == seq![front]);
            assert(seq![front].last() == front);
            assert(words(s) == seq![front].drop_last().push(front.push(s.last())));
            assert(front.push(s.last()) =~= s);
            assert(words(s) =~= seq![s]);
        }
    } else {
        assert(words(s) =~= Seq::<Seq<char>>::empty());
    }
}

/// No word is empty or holds white space.
pub open spec fn are_words(ws: Seq<Seq<char>>) -> bool {
    &&& forall|i: int| 0 <= i < ws.len() ==> (#[trigger] ws[i]).len() > 0
    &&& forall|i: int, k: int|
        0 <= i < ws.len() && 0 <= k < ws[i].len() ==> !is_white_space(#[trigger] ws[i][k])
}

/// Words with spaces between them are found again, all of them and in their order.
pub proof fn lemma_words_of_joined_words(ws: Seq<Seq<char>>)
    requires
        are_words(ws),
    ensures
        words(joined(ws, seq![' '])) == ws,
    decreases ws.len(),
{
    if ws.len() == 0 {
        assert(words(joined(ws, seq![' '])) =~= ws);
    } else {
        let last = ws.last();
        assert forall|i: int| 0 <= i < last.len() implies !is_white_space(#[trigger] last[i]) by {
            assert(!is_white_space(ws[ws.len() - 1][i]));
        }
        assert(ws[ws.len() - 1].len() > 0);
        lemma_solid_text_is_one_word(last);
        if ws.len() == 1 {
            assert(words(joined(ws, seq![' '])) =~= ws);
        } else {
            let front = ws.drop_last();
            assert(are_words(front)) by {
                assert forall|i: int| 0 <= i < front.len() implies (#[trigger] front[i]).len() > 0 by {
                    assert(front[i] == ws[i]);
                }
                assert forall|i: int, k: int|
                    0 <= i < front.len() && 0 <= k < front[i].len() implies !is_white_space(
                    #[trigger] front[i][k],
                ) by {
                    assert(front[i] == ws[i]);
                    assert(!is_white_space(ws[i][k]));
                }
            }
            lemma_words_of_joined_words(front);
            lemma_words_are_parted_by_white_space(joined(front, seq![' ']), ' ', last);
            assert(front + seq![last] =~= ws);
        }
    }
}

/// Joining keeps every part, in order, with the separator between each two and nowhere else.
pub proof fn lemma_joined_keeps_parts(a: Seq<Seq<char>>, b: Seq<Seq<char>>, sep: Seq<char>)
    ensures
        joined(Seq::<Seq<char>>::empty(), sep) == Seq::<char>::empty(),
        a.len() == 1 ==> joined(a, sep) == a[0],
        a.len() > 0 && b.len() > 0 ==> joined(a + b, sep) == joined(a, sep) + sep + joined(b, sep),
    decreases b.len(),
{
    assert(joined(Seq::<Seq<char>>::empty(), sep) =~= Seq::<char>::empty());
    if a.len() > 0 && b.len() > 0 {
        assert((a + b).drop_last() =~= a + b.drop_last());
        if b.len() == 1 {
            assert(a + b.drop_last() =~= a);
        } else {
            lemma_joined_keeps_parts(a, b.drop_last(), sep);
            assert(joined(a + b, sep) =~= joined(a, sep) + sep + joined(b, sep));
        }
    }
}

/// A text holds a part exactly if it is something, the part, and something.
pub proof fn lemma_parts_stand_in_texts(a: Seq<char>, part: Seq<char>, b: Seq<char>, s: Seq<char>)
    ensures
        has_part(a + part + b, part),
        has_part(s, part) ==> exists|at: int|
            0 <= at && at + part.len() <= s.len() && #[trigger] s.take(at) + part + s.skip(
                at + part.len(),
            ) == s,
{
    let t = a + part + b;
    assert(t.subrange(a.len() as int, (a.len() + part.len()) as int) =~= part);
    assert(stands_at(t, part, a.len() as int));
    if has_part(s, part) {
        let at = choose|at: int| stands_at(s, part, at);
        assert(s.take(at) + part + s.skip(at + part.len()) =~= s);
    }
}

/// A further digit stands behind the digits before it; a single digit stands for itself.
pub proof fn lemma_decimal_digits(n: nat, digit: nat)
    requires
        digit < 10,
    ensures
        decimal(10 * n + digit) == if n == 0 {
            seq![('0' as nat + digit) as char]
        } else {
            decimal(n).push(('0' as nat + digit) as char)
        },
        n > 0 ==> signed_decimal(-(n as int)) == seq!['-'] + decimal(n),
        signed_decimal(n as int) == decimal(n),
{
}

/// Optional texts and lists of texts are read element by element.
pub proof fn lemma_texts_are_read_one_by_one(v: Seq<String>, w: Seq<&str>, s: String, t: &str)
    ensures
        opt_text(Some(s)) == Some(s@),
        opt_text(None) is None,
        opt_slice(Some(t)) == Some(t@),
        opt_slice(None) is None,
        texts(v).len() == v.len(),
        forall|i: int| 0 <= i < v.len() ==> #[trigger] texts(v)[i] == v[i]@,
        slices(w).len() == w.len(),
        forall|i: int| 0 <= i < w.len() ==> #[trigger] slices(w)[i] == w[i]@,
{
}

} // verus!
