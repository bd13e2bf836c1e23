//! Points in time and their RFC 3339 texts.
use vstd::prelude::*;
use crate::bytes;

verus! {

/// The first second that a timestamp can name, from the start of 1970 on.
pub const MIN_SECS: i64 = -8334601228800;

/// The last second that a timestamp can name, from the start of 1970 on.
pub const MAX_SECS: i64 = 8210266876799;

/// The calendar can name this instant: the second lies in its range, and the nanoseconds pass a
/// whole second only within a leap second, at the end of a minute.
pub open spec fn is_instant(secs: i64, nanos: u32) -> bool {
    &&& MIN_SECS <= secs <= MAX_SECS
    &&& nanos < 2_000_000_000
    &&& nanos >= 1_000_000_000 ==> (secs as int) % 60 == 59
}

/// The calendar can name the instant, and it lies in the years 0 to 9999.
pub open spec fn has_plain_year(secs: i64, nanos: u32) -> bool {
    &&& -62167219200 <= secs <= 253402300799
    &&& is_instant(secs, nanos)
}

/// A point in time in UTC.
#[derive(Clone, Copy, Debug, PartialEq, Eq, Structural)]
pub struct Timestamp {
    secs: i64,
    nanos: u32,
}

impl View for Timestamp {
    type V = (i64, u32);

    closed spec fn view(&self) -> (i64, u32) {
        (self.secs, self.nanos)
    }
}

/// The RFC 3339 text of an instant.
pub uninterp spec fn rfc3339_text(secs: i64, nanos: u32) -> Seq<char>;

/// The instant that an RFC 3339 text names.
pub uninterp spec fn rfc3339_parsed(s: Seq<char>) -> Option<(i64, u32)>;

/// `a` lies before `b`.
pub open spec fn is_earlier(a: (i64, u32), b: (i64, u32)) -> bool {
    a.0 < b.0 || (a.0 == b.0 && a.1 < b.1)
}

/// The text is that of an instant in the years 0 to 9999, reads back to it, and stands in the
/// order of bytes where the instant stands in time.
pub open spec fn keeps_time(s: Seq<char>) -> bool {
    rfc3339_parsed(s) matches Some(t) && {
        &&& has_plain_year(t.0, t.1)
        &&& s == rfc3339_text(t.0, t.1)
        &&& forall|secs: i64, nanos: u32|
            has_plain_year(secs, nanos) ==> bytes::text_before(
                s,
                #[trigger] rfc3339_text(secs, nanos),
            ) == is_earlier(t, (secs, nanos))
    }
}

/// The instant is one that a clock can show: the calendar can name it, and it lies in no leap
/// second.
pub open spec fn is_clock_time(t: (i64, u32)) -> bool {
    &&& is_instant(t.0, t.1)
    &&& t.1 < 1_000_000_000
}

/// In the years 0 to 9999 the text of the instant stands for it.
pub open spec fn is_written(t: (i64, u32)) -> bool {
    has_plain_year(t.0, t.1) ==> keeps_time(rfc3339_text(t.0, t.1))
}

/// A clock can show the instant, and its text stands for it.
pub open spec fn is_noted(t: (i64, u32)) -> bool {
    is_clock_time(t) && is_written(t)
}

/// The instant that a text names.
pub open spec fn time_of(s: Seq<char>) -> (i64, u32) {
    rfc3339_parsed(s)->0
}

/// A text names a time before the instant `t`. Where it names no time, the order of bytes decides.
pub open spec fn is_before_instant(s: Seq<char>, t: (i64, u32)) -> bool {
    match rfc3339_parsed(s) {
        Some(u) => is_earlier(u, t),
        None => bytes::text_before(s, rfc3339_text(t.0, t.1)),
    }
}

/// A text names a time before that which another text names. Where one of them names no time, the
/// order of bytes decides.
pub open spec fn is_before_time(s: Seq<char>, t: Seq<char>) -> bool {
    match (rfc3339_parsed(s), rfc3339_parsed(t)) {
        (Some(u), Some(v)) => is_earlier(u, v),
        _ => bytes::text_before(s, t),
    }
}

/// How a time is written does not matter: two texts of one instant have the same texts of times
/// before them.
pub proof fn lemma_spelling_does_not_matter(s: Seq<char>, a: Seq<char>, b: Seq<char>)
    requires
        rfc3339_parsed(s) is Some,
        rfc3339_parsed(a) is Some,
        rfc3339_parsed(a) == rfc3339_parsed(b),
    ensures
        is_before_time(s, a) == is_before_time(s, b),
{
}

/// Of two such texts the one of the earlier instant comes first.
pub proof fn lemma_text_order_is_time_order(a: Seq<char>, b: Seq<char>)
    requires
        keeps_time(a),
        keeps_time(b),
    ensures
        bytes::text_before(a, b) == is_earlier(time_of(a), time_of(b)),
{
    let t = time_of(b);
    assert(b == rfc3339_text(t.0, t.1));
}

/// `chrono::Utc::now`: what the machine's clock says. The calendar can name it, and it lies in no
/// leap second: the clock gives less than a whole second of nanoseconds. Which instant it is rests
/// on the machine and is left unsaid.
#[verifier::external_body]
fn read_clock() -> (r: (i64, u32))
    ensures
        is_clock_time(r),
{
    let t = chrono::Utc::now();
    (t.timestamp(), t.timestamp_subsec_nanos())
}

/// `chrono::DateTime::to_rfc3339`: the text of an instant. It is not empty. For the years 0 to 9999
/// it reads back to the same instant, and the texts are ordered as the instants are: all parts up
/// to the second have a fixed width, a leap second is second 60 of its minute, and a fraction,
/// which is cut to whole groups of digits, is followed by a sign that comes before every digit and
/// before the point of a fraction.
#[verifier::external_body]
fn write_rfc3339(secs: i64, nanos: u32) -> (r: String)
    requires
        is_instant(secs, nanos),
    ensures
        r@ == rfc3339_text(secs, nanos),
        r@.len() > 0,
        has_plain_year(secs, nanos) ==> rfc3339_parsed(r@) == Some((secs, nanos)) && keeps_time(r@),
{
    chrono::DateTime::from_timestamp(secs, nanos).expect("instant in range").to_rfc3339()
}

/// `chrono::DateTime::parse_from_rfc3339`: the instant that the text names, where it names one.
#[verifier::external_body]
fn read_rfc3339(s: &str) -> (r: Option<(i64, u32)>)
    ensures
        r == rfc3339_parsed(s@),
        r matches Some(t) ==> is_instant(t.0, t.1),
{
    chrono::DateTime::parse_from_rfc3339(s).ok().map(|t| (t.timestamp(), t.timestamp_subsec_nanos()))
}

impl Timestamp {
    #[verifier::type_invariant]
    spec fn inv(self) -> bool {
        is_instant(self.secs, self.nanos)
    }

    /// The instant `nanos` nanoseconds after second `secs`, where the calendar can name it.
    pub fn new(secs: i64, nanos: u32) -> (r: Option<Timestamp>)
        ensures
            r is Some == is_instant(secs, nanos),
            r matches Some(t) ==> t@ == (secs, nanos),
    {
        if secs < MIN_SECS || secs > MAX_SECS || nanos >= 2_000_000_000 {
            return None;
        }
        if nanos >= 1_000_000_000 {
            // The distance from the first second is not negative; that second starts a minute.
            let past: u64 = (secs - MIN_SECS) as u64;
            assert((secs as int) % 60 == past as int % 60);
            if past % 60 != 59 {
                return None;
            }
        }
        Some(Timestamp { secs, nanos })
    }

    /// The current time, as the machine's clock has it: an instant in no leap second.
    pub fn now() -> (r: Timestamp)
        ensures
            is_clock_time(r@),
    {
        let t = read_clock();
        Timestamp { secs: t.0, nanos: t.1 }
    }

    /// The whole seconds from the start of 1970 on.
    pub fn secs(&self) -> (r: i64)
        ensures
            r == self@.0,
    {
        self.secs
    }

    /// The nanoseconds behind the whole second.
    pub fn nanos(&self) -> (r: u32)
        ensures
            r == self@.1,
    {
        self.nanos
    }

    /// The RFC 3339 text of the instant.
    pub fn to_rfc3339(&self) -> (r: String)
        ensures
            r@ == rfc3339_text(self@.0, self@.1),
            r@.len() > 0,
            has_plain_year(self@.0, self@.1) ==> rfc3339_parsed(r@) == Some(self@),
            is_written(self@),
    {
        proof {
            use_type_invariant(self);
        }
        write_rfc3339(self.secs, self.nanos)
    }
}

/// Tells whether the instant `a` lies before `b`.
fn lies_before(a: (i64, u32), b: (i64, u32)) -> (r: bool)
    ensures
        r == is_earlier(a, b),
{
    a.0 < b.0 || (a.0 == b.0 && a.1 < b.1)
}

/// Tells whether a text names a time before an instant.
pub fn before_instant(s: &str, t: Timestamp) -> (r: bool)
    ensures
        r == is_before_instant(s@, t@),
{
    match read_rfc3339(s) {
        Some(u) => lies_before(u, (t.secs, t.nanos)),
        None => bytes::is_before(s, t.to_rfc3339().as_str()),
    }
}

/// Tells whether a text names a time before that which another text names.
pub fn before_time(s: &str, t: &str) -> (r: bool)
    ensures
        r == is_before_time(s@, t@),
{
    match (read_rfc3339(s), read_rfc3339(t)) {
        (Some(u), Some(v)) => lies_before(u, v),
        _ => bytes::is_before(s, t),
    }
}

/// The instant that a text names, or `now` where it names none.
pub open spec fn dt_of(s: Seq<char>, now: (i64, u32)) -> (i64, u32) {
    match rfc3339_parsed(s) {
        Some(t) => t,
        None => now,
    }
}

/// The instant that a text names, or `now` where it names none.
pub fn parse_dt(s: &str, now: Timestamp) -> (r: Timestamp)
    ensures
        r@ == dt_of(s@, now@),
{
    match read_rfc3339(s) {
        Some(t) => Timestamp { secs: t.0, nanos: t.1 },
        None => now,
    }
}

/// The calendar can name every instant of the years 0 to 9999, leap seconds at the ends of minutes
/// among them, and these are the years whose texts read back.
pub proof fn lemma_plain_years(secs: i64, nanos: u32)
    requires
        -62167219200 <= secs <= 253402300799,
        nanos < 1_000_000_000 || (nanos < 2_000_000_000 && (secs as int) % 60 == 59),
    ensures
        has_plain_year(secs, nanos),
        is_instant(secs, nanos),
{
}

/// A later second is later; within a second, more nanoseconds are.
pub proof fn lemma_seconds_then_nanoseconds(a: (i64, u32), b: (i64, u32))
    ensures
        a.0 < b.0 ==> is_earlier(a, b) && !is_earlier(b, a),
        a.0 == b.0 ==> is_earlier(a, b) == (a.1 < b.1),
{
}

/// Whether a text lies before an instant, or before another text, is decided by the instants that
/// the texts name; a text that names none is compared by its bytes.
pub proof fn lemma_named_times_decide(s: Seq<char>, t: Seq<char>, u: (i64, u32), v: (i64, u32))
    requires
        rfc3339_parsed(t) == Some(v),
    ensures
        rfc3339_parsed(s) == Some(u) && (u.0 < v.0 || (u.0 == v.0 && u.1 < v.1))
            ==> is_before_time(s, t) && is_before_instant(s, v),
        rfc3339_parsed(s) == Some(u) && (v.0 < u.0 || (u.0 == v.0 && v.1 <= u.1))
            ==> !is_before_time(s, t) && !is_before_instant(s, v),
        rfc3339_parsed(s) is None ==> is_before_time(s, t) == bytes::text_before(s, t)
            && is_before_instant(s, v) == bytes::text_before(s, rfc3339_text(v.0, v.1)),
        rfc3339_parsed(s) is None ==> is_before_time(t, s) == bytes::text_before(t, s),
{
}

/// A text that names an instant is read as that instant, whatever the clock says; one that names
/// none is read as the time at which it is read.
pub proof fn lemma_texts_are_read_as_instants(s: Seq<char>, t: (i64, u32), now: (i64, u32))
    ensures
        rfc3339_parsed(s) == Some(t) ==> dt_of(s, now) == t && time_of(s) == t,
        rfc3339_parsed(s) is None ==> dt_of(s, now) == now,
{
}

/// A clock shows instants in which less than a second's nanoseconds are gone, and between the first
/// and the last day of the calendar.
pub proof fn lemma_clock_times(t: (i64, u32))
    requires
        is_clock_time(t),
    ensures
        t.1 < 1_000_000_000,
        -8334601228800 <= t.0 <= 8210266876799,
{
}

} // verus!
