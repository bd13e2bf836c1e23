//! Queries for full-text search.
use vstd::prelude::*;
use vstd::string::*;
use vstd::utf8::*;
use crate::bytes;
use crate::text;

verus! {

/// A search query is cut to this many bytes.
pub const MAX_QUERY_BYTES: usize = 10_000;

/// A search query is cut to this many tokens.
pub const MAX_QUERY_TOKENS: usize = 100;

/// The characters that the query language of the full-text index reads as operators.
pub open spec fn is_operator(c: char) -> bool {
    ||| c == '-'
    ||| c == '*'
    ||| c == '"'
    ||| c == '('
    ||| c == ')'
    ||| c == '{'
    ||| c == '}'
    ||| c == ':'
    ||| c == '^'
    ||| c == '+'
    ||| c == '~'
    ||| c == '\\'
}

fn is_operator_char(c: char) -> (r: bool)
    ensures
        r == is_operator(c),
{
    c == '-' || c == '*' || c == '"' || c == '(' || c == ')' || c == '{' || c == '}' || c == ':' || c
        == '^' || c == '+' || c == '~' || c == '\\'
}

/// `s` with each operator replaced by a space.
pub open spec fn without_operators(s: Seq<char>) -> Seq<char> {
    s.map_values(
        |c: char|
            if is_operator(c) {
                ' '
            } else {
                c
            },
    )
}

/// `s` between double quotes.
pub open spec fn quoted(s: Seq<char>) -> Seq<char> {
    seq!['"'] + s + seq!['"']
}

/// The words of a query that are searched for: those of its first `MAX_QUERY_BYTES` bytes that
/// are left when operators count as spaces, `MAX_QUERY_TOKENS` of them at most.
pub open spec fn query_tokens(query: Seq<char>) -> Seq<Seq<char>> {
    let all = text::words(without_operators(bytes::cut_at(query, MAX_QUERY_BYTES as nat)));
    all.take(
        if all.len() < MAX_QUERY_TOKENS {
            all.len() as int
        } else {
            MAX_QUERY_TOKENS as int
        },
    )
}

/// The tokens of a query, each in double quotes, with a space between each two.
pub open spec fn sanitized(query: Seq<char>) -> Seq<char> {
    text::joined(query_tokens(query).map_values(|w: Seq<char>| quoted(w)), seq![' '])
}

/// Turns free text into a query that holds no operator: each token stands in double quotes.
pub fn sanitize_fts_query(query: &str) -> (r: String)
    ensures
        r@ == sanitized(query@),
{
    let head = bytes::truncate_at_char_boundary(query, MAX_QUERY_BYTES);
    let chars = text::chars_of(head);
    let mut clean = String::new();
    let mut i: usize = 0;
    let ghost goal = without_operators(head@);
    while i < chars.len()
        invariant
            chars@ == head@,
            goal == without_operators(head@),
            i <= chars@.len(),
            clean@ == goal.take(i as int),
        decreases chars@.len() - i,
    {
        let c = chars[i];
        assert(goal.take(i + 1) =~= goal.take(i as int).push(goal[i as int]));
        if is_operator_char(c) {
            clean.push(' ');
        } else {
            clean.push(c);
        }
        i += 1;
    }
    assert(goal.take(goal.len() as int) =~= goal);
    let all = text::split_words(clean.as_str());
    let ghost tokens = query_tokens(query@).map_values(|w: Seq<char>| quoted(w));
    let mut out: Vec<String> = Vec::new();
    let mut k: usize = 0;
    while k < all.len() && k < MAX_QUERY_TOKENS
        invariant
            text::texts(all@) == text::words(goal),
            goal == without_operators(bytes::cut_at(query@, MAX_QUERY_BYTES as nat)),
            tokens == query_tokens(query@).map_values(|w: Seq<char>| quoted(w)),
            k <= all@.len(),
            k <= MAX_QUERY_TOKENS,
            text::texts(out@) == tokens.take(k as int),
        decreases all@.len() - k,
    {
        let mut w = String::new();
        w.push('"');
        w.append(all[k].as_str());
        w.push('"');
        assert(text::texts(all@)[k as int] == all@[k as int]@);
        assert(w@ =~= quoted(all@[k as int]@));
        let ghost before = text::texts(out@);
        out.push(w);
        assert(text::texts(out@) =~= before.push(w@));
        assert(tokens.take(k + 1) =~= tokens.take(k as int).push(tokens[k as int]));
        k += 1;
    }
    assert(text::texts(all@).len() == all@.len());
    assert(tokens.take(k as int) =~= tokens);
    let r = text::join(&out, " ");
    proof {
        reveal_strlit(" ");
        assert(" "@ =~= seq![' ']);
    }
    r
}

/// A query has at most `MAX_QUERY_TOKENS` tokens, and no token is empty or holds an operator (a
/// quote among them) or white space.
pub proof fn lemma_query_tokens_are_plain(query: Seq<char>)
    ensures
        query_tokens(query).len() <= MAX_QUERY_TOKENS,
        forall|i: int|
            0 <= i < query_tokens(query).len() ==> (#[trigger] query_tokens(query)[i]).len() > 0,
        forall|i: int, k: int|
            0 <= i < query_tokens(query).len() && 0 <= k < query_tokens(query)[i].len() ==> {
                let c = #[trigger] query_tokens(query)[i][k];
                !is_operator(c) && !text::is_white_space(c)
            },
{
    let clean = without_operators(bytes::cut_at(query, MAX_QUERY_BYTES as nat));
    text::lemma_words_are_solid(clean);
    text::lemma_words_hold_its_chars(clean);
    let tokens = query_tokens(query);
    assert forall|i: int, k: int| 0 <= i < tokens.len() && 0 <= k < tokens[i].len() implies {
        let c = #[trigger] tokens[i][k];
        !is_operator(c) && !text::is_white_space(c)
    } by {
        let c = tokens[i][k];
        assert(text::words(clean)[i] == tokens[i]);
        assert(text::words(clean)[i][k] == c);
        assert(clean.contains(c));
    }
}

/// Whether the message is that of the full-text index refusing a malformed query, as opposed to a
/// genuine database error.
pub fn is_fts5_syntax_error(message: Option<&str>) -> (r: bool)
    ensures
        r == (message matches Some(m) && text::has_part(m@, "fts5: syntax error"@)),
{
    match message {
        Some(m) => text::contains_text(m, "fts5: syntax error"),
        None => false,
    }
}

proof fn lemma_short_is_not_cut(s: Seq<char>, max: nat)
    requires
        encode_utf8(s).len() <= max,
    ensures
        bytes::cut_at(s, max) == s,
{
}

/// Nothing but operators is lost: where none of the twelve characters `- * " ( ) { } : ^ + ~ \\`
/// occurs in a query of at most 10000 bytes, all its words are searched for, as they stand, or the
/// first hundred of them.
pub proof fn lemma_other_characters_stay(query: Seq<char>)
    requires
        encode_utf8(query).len() <= 10000,
        forall|i: int|
            0 <= i < query.len() ==> {
                let c = #[trigger] query[i];
                &&& c != '-' && c != '*' && c != '"' && c != '(' && c != ')' && c != '{'
                &&& c != '}' && c != ':' && c != '^' && c != '+' && c != '~' && c != '\\'
            },
    ensures
        text::words(query).len() <= 100 ==> query_tokens(query) == text::words(query),
        text::words(query).len() > 100 ==> query_tokens(query) == text::words(query).take(100),
{
    lemma_short_is_not_cut(query, 10000);
    assert(without_operators(query) =~= query);
    let all = text::words(query);
    assert(all.take(all.len() as int) =~= all);
}

/// Each of the twelve operators parts words as a space does, and stands in none of them.
pub proof fn lemma_operators_part_words(a: Seq<char>, c: char, b: Seq<char>)
    requires
        encode_utf8(a + seq![c] + b).len() <= 10000,
        query_tokens(a).len() + query_tokens(b).len() <= 100,
        c == '-' || c == '*' || c == '"' || c == '(' || c == ')' || c == '{' || c == '}' || c == ':'
            || c == '^' || c == '+' || c == '~' || c == '\\',
    ensures
        query_tokens(a + seq![c] + b) == query_tokens(a) + query_tokens(b),
{
    let q = a + seq![c] + b;
    bytes::lemma_encode_concat(a + seq![c], b);
    bytes::lemma_encode_concat(a, seq![c]);
    lemma_short_is_not_cut(q, 10000);
    lemma_short_is_not_cut(a, 10000);
    lemma_short_is_not_cut(b, 10000);
    assert(without_operators(q) =~= without_operators(a) + seq![' '] + without_operators(b));
    text::lemma_words_are_parted_by_white_space(without_operators(a), ' ', without_operators(b));
    let wa = text::words(without_operators(a));
    let wb = text::words(without_operators(b));
    assert(query_tokens(q) =~= query_tokens(a) + query_tokens(b));
}

/// Of a long query the characters in its first 10000 bytes are searched for: its first `k`, where
/// one more would be too many.
pub proof fn lemma_long_query_is_cut(query: Seq<char>) -> (k: int)
    ensures
        0 <= k <= query.len(),
        query_tokens(query) == query_tokens(query.take(k)),
        encode_utf8(query.take(k)).len() <= 10000,
        k < query.len() ==> encode_utf8(query.take(k + 1)).len() > 10000,
{
    bytes::lemma_cut_is_longest(query, 10000);
    let head = bytes::cut_at(query, 10000);
    let k = head.len() as int;
    assert(query.take(k) =~= head);
    lemma_short_is_not_cut(head, 10000);
    if k < query.len() {
        assert(bytes::byte_len(query.take(k + 1)) > 10000);
    }
    k
}

/// What is searched for is each token between double quotes, in order, with single spaces between
/// them.
pub proof fn lemma_tokens_are_quoted(query: Seq<char>)
    ensures
        ({
            let parts = text::words(sanitized(query));
            let tokens = query_tokens(query);
            &&& sanitized(query) == text::joined(parts, seq![' '])
            &&& parts.len() == tokens.len()
            &&& forall|i: int|
                0 <= i < tokens.len() ==> #[trigger] parts[i] == seq!['"'] + tokens[i] + seq!['"']
        }),
{
    lemma_query_tokens_are_plain(query);
    let tokens = query_tokens(query);
    let parts = tokens.map_values(|w: Seq<char>| quoted(w));
    assert(text::are_words(parts)) by {
        assert forall|i: int, k: int|
            0 <= i < parts.len() && 0 <= k < parts[i].len() implies !text::is_white_space(
            #[trigger] parts[i][k],
        ) by {
            if 0 < k < parts[i].len() - 1 {
                assert(parts[i][k] == tokens[i][k - 1]);
            }
        }
    }
    text::lemma_words_of_joined_words(parts);
}

} // verus!
