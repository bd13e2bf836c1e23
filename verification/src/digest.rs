//! The fingerprint by which a memory is recognised when it is stored again.
use vstd::prelude::*;
use vstd::string::*;
use vstd::utf8::*;
use crate::text;

verus! {

/// The SHA-256 digest of some bytes.
pub uninterp spec fn sha256_of(data: Seq<u8>) -> Seq<u8>;

/// A text in lower case.
pub uninterp spec fn lowercase_of(s: Seq<char>) -> Seq<char>;

/// `sha2::Sha256::digest`: the digest of the bytes, which is 32 bytes long.
#[verifier::external_body]
fn sha256(data: &Vec<u8>) -> (r: Vec<u8>)
    ensures
        r@ == sha256_of(data@),
        r@.len() == 32,
{
    <sha2::Sha256 as sha2::Digest>::digest(data).to_vec()
}

/// `str::to_lowercase`: the text in lower case, by the rules of Unicode.
#[verifier::external_body]
fn to_lowercase(s: &str) -> (r: String)
    ensures
        r@ == lowercase_of(s@),
{
    s.to_lowercase()
}

/// The hexadecimal digit of a number below 16.
pub open spec fn hex_digit(n: int) -> char {
    if n < 10 {
        ('0' as int + n) as char
    } else {
        ('a' as int + n - 10) as char
    }
}

/// Each byte as two hexadecimal digits.
pub open spec fn hex_text(data: Seq<u8>) -> Seq<char> {
    Seq::new(
        2 * data.len(),
        |i: int|
            if i % 2 == 0 {
                hex_digit(data[i / 2] as int / 16)
            } else {
                hex_digit(data[i / 2] as int % 16)
            },
    )
}

fn digit_char(n: u8) -> (r: char)
    requires
        n < 16,
    ensures
        r == hex_digit(n as int),
{
    match n {
        0 => '0',
        1 => '1',
        2 => '2',
        3 => '3',
        4 => '4',
        5 => '5',
        6 => '6',
        7 => '7',
        8 => '8',
        9 => '9',
        10 => 'a',
        11 => 'b',
        12 => 'c',
        13 => 'd',
        14 => 'e',
        _ => 'f',
    }
}

/// Each byte as two hexadecimal digits.
pub fn to_hex(data: &Vec<u8>) -> (r: String)
    ensures
        r@ == hex_text(data@),
{
    let mut r = String::new();
    let mut i: usize = 0;
    let ghost goal = hex_text(data@);
    while i < data.len()
        invariant
            i <= data@.len(),
            goal == hex_text(data@),
            r@ == goal.take(2 * i),
        decreases data@.len() - i,
    {
        let b = data[i];
        r.push(digit_char(b / 16));
        r.push(digit_char(b % 16));
        assert((2 * i + 1) / 2 == i && (2 * i + 1) % 2 == 1 && (2 * i) / 2 == i);
        assert(goal[2 * i] == hex_digit(b as int / 16));
        assert(goal[2 * i + 1] == hex_digit(b as int % 16));
        assert(r@ =~= goal.take(2 * (i + 1)));
        i += 1;
    }
    assert(goal.take(2 * data@.len() as int) =~= goal);
    r
}

/// A topic or a summary as the fingerprint sees it: its words with single spaces between them, in
/// lower case.
pub open spec fn normal_text(s: Seq<char>) -> Seq<char> {
    lowercase_of(text::joined(text::words(s), seq![' ']))
}

/// The bytes that are hashed: the topic, a zero byte, the summary.
pub open spec fn hash_input(topic: Seq<char>, summary: Seq<char>) -> Seq<u8> {
    encode_utf8(normal_text(topic)) + seq![0u8] + encode_utf8(normal_text(summary))
}

/// The fingerprint of a memory.
pub open spec fn summary_hash_text(topic: Seq<char>, summary: Seq<char>) -> Seq<char> {
    hex_text(sha256_of(hash_input(topic, summary)))
}

fn append_bytes(out: &mut Vec<u8>, s: &str)
    ensures
        final(out)@ == old(out)@ + encode_utf8(s@),
{
    let b = s.as_bytes();
    let mut i: usize = 0;
    let ghost start = out@;
    while i < b.len()
        invariant
            i <= b@.len(),
            out@ == start + b@.take(i as int),
        decreases b@.len() - i,
    {
        out.push(b[i]);
        assert(out@ =~= start + b@.take(i + 1));
        i += 1;
    }
    assert(b@.take(b@.len() as int) =~= b@);
}

fn normalized(s: &str) -> (r: String)
    ensures
        r@ == normal_text(s@),
{
    let parts = text::split_words(s);
    proof {
        reveal_strlit(" ");
        assert(" "@ =~= seq![' ']);
    }
    to_lowercase(text::join(&parts, " ").as_str())
}

/// The character is a hexadecimal digit in lower case.
pub open spec fn is_hex_digit(c: char) -> bool {
    '0' <= c <= '9' || 'a' <= c <= 'f'
}

/// The fingerprint of a memory: the SHA-256 digest, in hexadecimal, of its normalised topic and
/// summary with a zero byte between them. It has 64 digits.
pub fn summary_hash(topic: &str, summary: &str) -> (r: String)
    ensures
        r@ == summary_hash_text(topic@, summary@),
        r@.len() == 64,
        forall|i: int| 0 <= i < r@.len() ==> is_hex_digit(#[trigger] r@[i]),
{
    let t = normalized(topic);
    let s = normalized(summary);
    let mut data: Vec<u8> = Vec::new();
    append_bytes(&mut data, t.as_str());
    data.push(0);
    append_bytes(&mut data, s.as_str());
    assert(data@ =~= hash_input(topic@, summary@));
    to_hex(&sha256(&data))
}

/// The fingerprint sees neither white space around a topic or a summary nor how much white space
/// lies between their words.
pub proof fn lemma_hash_ignores_white_space(
    topic: Seq<char>,
    summary: Seq<char>,
    other_topic: Seq<char>,
    other_summary: Seq<char>,
)
    requires
        text::words(topic) == text::words(other_topic),
        text::words(summary) == text::words(other_summary),
    ensures
        summary_hash_text(topic, summary) == summary_hash_text(other_topic, other_summary),
{
}

/// The fingerprint sees a memory only in its normal form: texts that are the same words in lower
/// case have the same one.
pub proof fn lemma_hash_sees_normal_form(
    topic: Seq<char>,
    summary: Seq<char>,
    other_topic: Seq<char>,
    other_summary: Seq<char>,
)
    requires
        normal_text(topic) == normal_text(other_topic),
        normal_text(summary) == normal_text(other_summary),
    ensures
        summary_hash_text(topic, summary) == summary_hash_text(other_topic, other_summary),
{
}

/// A memory keeps its fingerprint when its topic is trimmed.
pub proof fn lemma_hash_of_trimmed_topic(topic: Seq<char>, summary: Seq<char>)
    ensures
        summary_hash_text(text::trimmed(topic), summary) == summary_hash_text(topic, summary),
{
    text::lemma_words_of_trimmed(topic);
}

proof fn lemma_scalar_bytes_not_zero(c: char)
    requires
        c != '\0',
    ensures
        !encode_scalar(c as u32).contains(0u8),
        encode_scalar(c as u32).len() > 0,
{
    let s = c as u32;
    char_is_scalar(c);
    assert(s <= 0x10ffff);
    assert(s > 0 && s <= 0x7f ==> (s & 0x7F) as u8 != 0) by (bit_vector);
    assert(0xC0u8 | ((s >> 6) & 0x1F) as u8 != 0) by (bit_vector);
    assert(0xE0u8 | ((s >> 12) & 0x0F) as u8 != 0) by (bit_vector);
    assert(0xF0u8 | ((s >> 18) & 0x07) as u8 != 0) by (bit_vector);
    assert(0x80u8 | (s & 0x3F) as u8 != 0) by (bit_vector);
    assert(0x80u8 | ((s >> 6) & 0x3F) as u8 != 0) by (bit_vector);
    assert(0x80u8 | ((s >> 12) & 0x3F) as u8 != 0) by (bit_vector);
}

proof fn lemma_no_zero_byte(s: Seq<char>)
    requires
        !s.contains('\0'),
    ensures
        !encode_utf8(s).contains(0u8),
    decreases s.len(),
{
    if s.len() > 0 {
        let rest = s.drop_first();
        assert(s.contains(s[0]));
        lemma_scalar_bytes_not_zero(s[0]);
        assert forall|i: int| 0 <= i < rest.len() implies rest[i] != '\0' by {
            assert(s.contains(s[i + 1]));
        }
        lemma_no_zero_byte(rest);
        let head = encode_scalar(s[0] as u32);
        let tail = encode_utf8(rest);
        assert forall|i: int| 0 <= i < encode_utf8(s).len() implies encode_utf8(s)[i] != 0u8 by {
            if i < head.len() {
                assert(head.contains(head[i]));
            } else {
                assert(tail.contains(tail[i - head.len()]));
            }
        }
    }
}

proof fn lemma_split_at_zero(a: Seq<u8>, x: Seq<u8>, b: Seq<u8>, y: Seq<u8>)
    requires
        !a.contains(0u8),
        !b.contains(0u8),
        a + seq![0u8] + x == b + seq![0u8] + y,
    ensures
        a == b,
        x == y,
{
    let l = a + seq![0u8] + x;
    let r = b + seq![0u8] + y;
    if a.len() < b.len() {
        assert(l[a.len() as int] == 0u8);
        assert(r[a.len() as int] == b[a.len() as int]);
        assert(b.contains(b[a.len() as int]));
    }
    if b.len() < a.len() {
        assert(r[b.len() as int] == 0u8);
        assert(l[b.len() as int] == a[b.len() as int]);
        assert(a.contains(a[b.len() as int]));
    }
    assert forall|i: int| 0 <= i < a.len() implies a[i] == b[i] by {
        assert(l[i] == a[i] && r[i] == b[i]);
    }
    assert(a =~= b);
    assert(l.len() == a.len() + 1 + x.len() && r.len() == b.len() + 1 + y.len());
    assert forall|i: int| 0 <= i < x.len() implies x[i] == y[i] by {
        assert(l[a.len() + 1 + i] == x[i] && r[a.len() + 1 + i] == y[i]);
    }
    assert(x =~= y);
}

/// What is hashed tells where the topic ends: two memories whose topics hold no zero character
/// have the same bytes hashed only if they agree on the normalised topic and summary.
pub proof fn lemma_hash_input_is_unambiguous(
    topic: Seq<char>,
    summary: Seq<char>,
    other_topic: Seq<char>,
    other_summary: Seq<char>,
)
    requires
        hash_input(topic, summary) == hash_input(other_topic, other_summary),
        !normal_text(topic).contains('\0'),
        !normal_text(other_topic).contains('\0'),
    ensures
        normal_text(topic) == normal_text(other_topic),
        normal_text(summary) == normal_text(other_summary),
{
    lemma_no_zero_byte(normal_text(topic));
    lemma_no_zero_byte(normal_text(other_topic));
    lemma_split_at_zero(
        encode_utf8(normal_text(topic)),
        encode_utf8(normal_text(summary)),
        encode_utf8(normal_text(other_topic)),
        encode_utf8(normal_text(other_summary)),
    );
    encode_utf8_decode_utf8(normal_text(topic));
    encode_utf8_decode_utf8(normal_text(other_topic));
    encode_utf8_decode_utf8(normal_text(summary));
    encode_utf8_decode_utf8(normal_text(other_summary));
}

/// Each byte is two digits, the first for its upper half.
pub proof fn lemma_hex_digits_stand_for_bytes(data: Seq<u8>, k: int)
    requires
        0 <= k < data.len(),
    ensures
        hex_text(data).len() == 2 * data.len(),
        ({
            let value = |c: char|
                if '0' <= c <= '9' {
                    c as int - '0' as int
                } else {
                    c as int - 'a' as int + 10
                };
            let high = hex_text(data)[2 * k];
            let low = hex_text(data)[2 * k + 1];
            &&& ('0' <= high <= '9' || 'a' <= high <= 'f')
            &&& ('0' <= low <= '9' || 'a' <= low <= 'f')
            &&& 16 * value(high) + value(low) == data[k]
        }),
{
    assert((2 * k) / 2 == k && (2 * k) % 2 == 0);
    assert((2 * k + 1) / 2 == k && (2 * k + 1) % 2 == 1);
}

/// A text that is its own words with single spaces between them is seen whole: only the case of
/// its letters is lost.
pub proof fn lemma_plain_text_is_seen_whole(s: Seq<char>)
    requires
        s == text::joined(text::words(s), seq![' ']),
    ensures
        normal_text(s) == lowercase_of(s),
{
}

/// Whatever the words are and however many, the fingerprint is that of all of them: the digest of
/// the topic's words, a zero byte and the summary's words, in lower case.
pub proof fn lemma_fingerprint_takes_every_word(topic: Seq<Seq<char>>, summary: Seq<Seq<char>>)
    requires
        text::are_words(topic),
        text::are_words(summary),
    ensures
        ({
            let t = text::joined(topic, seq![' ']);
            let s = text::joined(summary, seq![' ']);
            summary_hash_text(t, s) == hex_text(
                sha256_of(encode_utf8(lowercase_of(t)) + seq![0u8] + encode_utf8(lowercase_of(s))),
            )
        }),
{
    text::lemma_words_of_joined_words(topic);
    text::lemma_words_of_joined_words(summary);
}

/// The fingerprint sees the whole of both texts: the same bytes are hashed only if the topics, all
/// words of them, and the summaries, all words of them, are the same in lower case.
pub proof fn lemma_fingerprint_sees_whole_texts(
    topic: Seq<char>,
    summary: Seq<char>,
    other_topic: Seq<char>,
    other_summary: Seq<char>,
)
    requires
        hash_input(topic, summary) == hash_input(other_topic, other_summary),
        !lowercase_of(text::joined(text::words(topic), seq![' '])).contains('\0'),
        !lowercase_of(text::joined(text::words(other_topic), seq![' '])).contains('\0'),
    ensures
        lowercase_of(text::joined(text::words(topic), seq![' '])) == lowercase_of(
            text::joined(text::words(other_topic), seq![' ']),
        ),
        lowercase_of(text::joined(text::words(summary), seq![' '])) == lowercase_of(
            text::joined(text::words(other_summary), seq![' ']),
        ),
{
    lemma_hash_input_is_unambiguous(topic, summary, other_topic, other_summary);
}

} // verus!
