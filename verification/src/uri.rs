//! `file:` URIs that name a database.
use vstd::prelude::*;
use vstd::string::*;
use crate::text;

verus! {

/// How one character of a path is written in a URI.
pub open spec fn uri_char(c: char) -> Seq<char> {
    if c == '?' {
        seq!['%', '3', 'F']
    } else if c == '#' {
        seq!['%', '2', '3']
    } else if c == '%' {
        seq!['%', '2', '5']
    } else if c == '\\' {
        seq!['/']
    } else {
        seq![c]
    }
}

/// How a path is written in a URI.
pub open spec fn uri_path(s: Seq<char>) -> Seq<char>
    decreases s.len(),
{
    if s.len() == 0 {
        seq![]
    } else {
        uri_char(s[0]) + uri_path(s.drop_first())
    }
}

/// Writes a path for a `file:` URI: a backslash becomes a slash, and the characters that end or
/// escape a part of a URI (`?`, `#`, `%`) become their hexadecimal codes.
pub fn encode_sqlite_uri_path(path: &str) -> (r: String)
    ensures
        r@ == uri_path(path@),
{
    let v = text::chars_of(path);
    let mut r = String::new();
    let mut i: usize = 0;
    assert(v@.skip(0) =~= v@);
    assert(r@ + uri_path(v@) =~= uri_path(v@));
    while i < v.len()
        invariant
            v@ == path@,
            i <= v@.len(),
            r@ + uri_path(v@.skip(i as int)) == uri_path(v@),
        decreases v@.len() - i,
    {
        let c = v[i];
        let ghost before = r@;
        let ghost left = v@.skip(i as int);
        assert(left.drop_first() =~= v@.skip(i + 1));
        if c == '?' {
            r.push('%');
            r.push('3');
            r.push('F');
        } else if c == '#' {
            r.push('%');
            r.push('2');
            r.push('3');
        } else if c == '%' {
            r.push('%');
            r.push('2');
            r.push('5');
        } else if c == '\\' {
            r.push('/');
        } else {
            r.push(c);
        }
        assert(r@ =~= before + uri_char(left[0]));
        assert(r@ + uri_path(v@.skip(i + 1)) =~= before + uri_path(left));
        i += 1;
    }
    assert(uri_path(v@.skip(v@.len() as int)) =~= seq![]);
    assert(r@ =~= uri_path(v@));
    r
}

/// The URI that opens `path` read-only; `immutable` adds that the file does not change.
pub open spec fn readonly_uri_text(path: Seq<char>, immutable: bool) -> Seq<char> {
    "file:"@ + uri_path(path) + if immutable {
        "?mode=ro&immutable=1"@
    } else {
        "?mode=ro"@
    }
}

/// The URI that opens `path` read-only; `immutable` adds that the file does not change.
pub fn readonly_uri(path: &str, immutable: bool) -> (r: String)
    ensures
        r@ == readonly_uri_text(path@, immutable),
{
    let mut r = String::new();
    r.append("file:");
    r.append(encode_sqlite_uri_path(path).as_str());
    if immutable {
        r.append("?mode=ro&immutable=1");
    } else {
        r.append("?mode=ro");
    }
    assert(r@ =~= readonly_uri_text(path@, immutable));
    r
}

/// The value of a hexadecimal digit.
pub open spec fn hex_value(c: char) -> Option<int> {
    if '0' <= c <= '9' {
        Some(c as int - '0' as int)
    } else if 'A' <= c <= 'F' {
        Some(c as int - 'A' as int + 10)
    } else {
        None
    }
}

/// What a URI path stands for: `%` and two hexadecimal digits stand for one character.
pub open spec fn uri_decoded(s: Seq<char>) -> Seq<char>
    decreases s.len(),
{
    if s.len() == 0 {
        seq![]
    } else if s.len() >= 3 && s[0] == '%' && hex_value(s[1]) is Some && hex_value(s[2]) is Some {
        seq![(16 * hex_value(s[1])->0 + hex_value(s[2])->0) as char] + uri_decoded(s.skip(3))
    } else {
        seq![s[0]] + uri_decoded(s.drop_first())
    }
}

/// A path with its backslashes turned into slashes.
pub open spec fn with_slashes(s: Seq<char>) -> Seq<char> {
    s.map_values(
        |c: char|
            if c == '\\' {
                '/'
            } else {
                c
            },
    )
}

/// No path can end the path part of its URI: the encoding holds no `?`, `#` or backslash.
pub proof fn lemma_uri_path_has_no_delimiter(s: Seq<char>)
    ensures
        !uri_path(s).contains('?'),
        !uri_path(s).contains('#'),
        !uri_path(s).contains('\\'),
    decreases s.len(),
{
    if s.len() > 0 {
        let rest = uri_path(s.drop_first());
        lemma_uri_path_has_no_delimiter(s.drop_first());
        assert forall|i: int| 0 <= i < uri_path(s).len() implies uri_path(s)[i] != '?' && uri_path(
            s,
        )[i] != '#' && uri_path(s)[i] != '\\' by {
            let head = uri_char(s[0]);
            if i >= head.len() {
                assert(uri_path(s)[i] == rest[i - head.len()]);
                assert(rest.contains(uri_path(s)[i]));
            }
        }
    }
}

/// Reading the encoded path back gives the path, up to the direction of its slashes.
pub proof fn lemma_uri_path_reads_back(s: Seq<char>)
    ensures
        uri_decoded(uri_path(s)) == with_slashes(s),
    decreases s.len(),
{
    if s.len() == 0 {
        assert(with_slashes(s) =~= seq![]);
    } else {
        let rest = s.drop_first();
        lemma_uri_path_reads_back(rest);
        let e = uri_path(s);
        if s[0] == '?' || s[0] == '#' || s[0] == '%' {
            assert(e.skip(3) =~= uri_path(rest));
            assert(e[0] == '%');
            assert(e[1] == uri_char(s[0])[1]);
            assert(e[2] == uri_char(s[0])[2]);
            assert((16 * hex_value(e[1])->0 + hex_value(e[2])->0) as char == s[0]);
        } else {
            assert(e.drop_first() =~= uri_path(rest));
            assert(e[0] == uri_char(s[0])[0]);
        }
        assert(with_slashes(s) =~= seq![with_slashes(s)[0]] + with_slashes(rest));
    }
}

/// A path is written character by character: `?`, `#` and `%` as their numbers in hexadecimal, a
/// backslash as a slash, and every other character as it is.
pub proof fn lemma_uri_path_char_by_char(a: Seq<char>, b: Seq<char>, c: char)
    ensures
        uri_path(a + b) == uri_path(a) + uri_path(b),
        c == '?' ==> uri_path(seq![c]) == seq!['%', '3', 'F'],
        c == '#' ==> uri_path(seq![c]) == seq!['%', '2', '3'],
        c == '%' ==> uri_path(seq![c]) == seq!['%', '2', '5'],
        c == '\\' ==> uri_path(seq![c]) == seq!['/'],
        c != '?' && c != '#' && c != '%' && c != '\\' ==> uri_path(seq![c]) == seq![c],
    decreases a.len(),
{
    assert(seq![c].drop_first() =~= seq![]);
    assert(uri_path(seq![c].drop_first()) =~= seq![]);
    assert(uri_path(seq![c]) =~= uri_char(c));
    if a.len() == 0 {
        assert(a + b =~= b);
        assert(uri_path(a) + uri_path(b) =~= uri_path(b));
    } else {
        assert((a + b).drop_first() =~= a.drop_first() + b);
        lemma_uri_path_char_by_char(a.drop_first(), b, c);
        assert(uri_path(a + b) =~= uri_path(a) + uri_path(b));
    }
}

/// The URI names the file, then says that it is only read and, where asked, that it does not
/// change.
pub proof fn lemma_uri_has_its_parts(path: Seq<char>)
    ensures
        readonly_uri_text(path, false) == seq!['f', 'i', 'l', 'e', ':'] + uri_path(path) + seq![
            '?',
            'm',
            'o',
            'd',
            'e',
            '=',
            'r',
            'o',
        ],
        readonly_uri_text(path, true) == readonly_uri_text(path, false) + seq![
            '&',
            'i',
            'm',
            'm',
            'u',
            't',
            'a',
            'b',
            'l',
            'e',
            '=',
            '1',
        ],
{
    reveal_strlit("file:");
    reveal_strlit("?mode=ro");
    reveal_strlit("?mode=ro&immutable=1");
    assert("file:"@ =~= seq!['f', 'i', 'l', 'e', ':']);
    assert("?mode=ro"@ =~= seq!['?', 'm', 'o', 'd', 'e', '=', 'r', 'o']);
    assert(readonly_uri_text(path, true) =~= readonly_uri_text(path, false) + seq![
        '&',
        'i',
        'm',
        'm',
        'u',
        't',
        'a',
        'b',
        'l',
        'e',
        '=',
        '1',
    ]);
}

} // verus!
