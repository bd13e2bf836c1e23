//! Decisions on the way to an open database.
use vstd::prelude::*;
use vstd::string::*;
use crate::error::{ErrorV, IcmError};
use crate::text;

verus! {

/// The schema of a new database is set up in at most this many attempts.
pub const MAX_OPEN_ATTEMPTS: u32 = 40;

// ---------------------------------------------------------------------------
// Setting up a database that others open at the same time
// ---------------------------------------------------------------------------

/// The message of a failure that comes from another process setting up the same database, and that
/// a later attempt does not see.
pub open spec fn is_transient(message: Seq<char>) -> bool {
    ||| text::has_part(message, "vtable constructor failed"@)
    ||| text::has_part(message, "already exists"@)
    ||| text::has_part(message, "database is locked"@)
    ||| text::has_part(message, "database is busy"@)
}

/// Whether a failure may be gone at the next attempt.
pub fn is_transient_failure(message: &str) -> (r: bool)
    ensures
        r == is_transient(message@),
{
    text::contains_text(message, "vtable constructor failed") || text::contains_text(
        message,
        "already exists",
    ) || text::contains_text(message, "database is locked") || text::contains_text(
        message,
        "database is busy",
    )
}

/// What to do after an attempt to set up the schema.
#[derive(Clone, Copy, Debug, PartialEq, Eq, Structural)]
pub enum OpenStep {
    /// The database is ready.
    Ready,
    /// Make the attempt with this number.
    Retry { attempt: u32 },
    /// Report the failure of the last attempt.
    GiveUp,
}

/// What to do after attempt number `attempt`, counted from zero, whose failure had a message.
pub open spec fn step_after(attempt: int, failure: Option<Seq<char>>) -> OpenStep {
    match failure {
        None => OpenStep::Ready,
        Some(message) => if is_transient(message) && attempt + 1 < MAX_OPEN_ATTEMPTS {
            OpenStep::Retry { attempt: (attempt + 1) as u32 }
        } else {
            OpenStep::GiveUp
        },
    }
}

/// Decides what to do after attempt number `attempt`, counted from zero.
pub fn after_attempt(attempt: u32, failure: Option<&str>) -> (r: OpenStep)
    ensures
        r == step_after(
            attempt as int,
            text::opt_slice(failure),
        ),
{
    match failure {
        None => OpenStep::Ready,
        Some(message) => {
            if is_transient_failure(message) && attempt < MAX_OPEN_ATTEMPTS - 1 {
                OpenStep::Retry { attempt: attempt + 1 }
            } else {
                OpenStep::GiveUp
            }
        },
    }
}

/// How long to wait before an attempt, in milliseconds: nothing before the first, then longer and
/// longer up to a limit, with a share that depends on the clock, so that processes that collided
/// do not collide again.
pub open spec fn wait_before(attempt: int, clock_nanos: int) -> int {
    if attempt == 0 {
        0
    } else {
        (if attempt < 20 {
            attempt
        } else {
            20
        }) * 15 + clock_nanos % 40
    }
}

/// How long to wait before an attempt, in milliseconds.
pub fn backoff_ms(attempt: u32, clock_nanos: u32) -> (r: u64)
    ensures
        r == wait_before(attempt as int, clock_nanos as int),
{
    if attempt == 0 {
        return 0;
    }
    let base: u64 = if attempt < 20 {
        attempt as u64
    } else {
        20
    };
    base * 15 + (clock_nanos % 40) as u64
}

/// The number of attempts that follow attempt number `attempt` where attempt `k` fails with
/// `failures(k)`, or succeeds where that is none.
pub open spec fn attempts_from(attempt: int, failures: spec_fn(int) -> Option<Seq<char>>) -> int
    decreases MAX_OPEN_ATTEMPTS - attempt,
{
    match step_after(attempt, failures(attempt)) {
        OpenStep::Retry { .. } => if 0 <= attempt {
            1 + attempts_from(attempt + 1, failures)
        } else {
            1
        },
        _ => 1,
    }
}

/// However the attempts fail, there are no more of them than allowed.
pub proof fn lemma_attempts_end(attempt: int, failures: spec_fn(int) -> Option<Seq<char>>)
    requires
        0 <= attempt < MAX_OPEN_ATTEMPTS,
    ensures
        1 <= attempts_from(attempt, failures) <= MAX_OPEN_ATTEMPTS - attempt,
    decreases MAX_OPEN_ATTEMPTS - attempt,
{
    if step_after(attempt, failures(attempt)) is Retry {
        lemma_attempts_end(attempt + 1, failures);
    }
}

/// No wait is longer than the longest, and a later attempt does not wait less but for the share of
/// the clock.
pub proof fn lemma_wait_is_bounded(attempt: int, later: int, clock_nanos: int)
    requires
        0 < attempt <= later,
        0 <= clock_nanos,
    ensures
        15 <= wait_before(attempt, clock_nanos) <= 339,
        wait_before(attempt, clock_nanos) <= wait_before(later, clock_nanos),
{
}

// ---------------------------------------------------------------------------
// Opening an existing database
// ---------------------------------------------------------------------------

/// Whether a read-only database has to be opened as an unchanging snapshot: only where it could not
/// be opened live, or could not be read then.
pub fn needs_snapshot(opened_live: bool, readable_live: bool) -> (r: bool)
    ensures
        r == !(opened_live && readable_live),
{
    !(opened_live && readable_live)
}

/// The error for a database that is not there.
pub fn missing_database(path: &str) -> (r: IcmError)
    ensures
        r@ == ErrorV::NotFound("database not found at "@ + path@),
{
    let mut m = String::new();
    m.append("database not found at ");
    m.append(path);
    assert(m@ =~= "database not found at "@ + path@);
    IcmError::NotFound(m)
}

/// What failed on the way to an open database.
#[derive(Clone, Copy, Debug, PartialEq, Eq, Structural)]
pub enum OpenStage {
    Directory,
    File,
    ReadOnlyFile,
    InMemory,
}

/// The words that say what failed.
pub open spec fn stage_text(stage: OpenStage) -> Seq<char> {
    match stage {
        OpenStage::Directory => "cannot create db directory: "@,
        OpenStage::File => "cannot open database: "@,
        OpenStage::ReadOnlyFile => "cannot open database read-only: "@,
        OpenStage::InMemory => "cannot open in-memory db: "@,
    }
}

/// The error for a step that failed on the way to an open database.
pub fn open_error(stage: OpenStage, message: &str) -> (r: IcmError)
    ensures
        r@ == ErrorV::Database(stage_text(stage) + message@),
{
    let mut m = String::new();
    match stage {
        OpenStage::Directory => m.append("cannot create db directory: "),
        OpenStage::File => m.append("cannot open database: "),
        OpenStage::ReadOnlyFile => m.append("cannot open database read-only: "),
        OpenStage::InMemory => m.append("cannot open in-memory db: "),
    }
    m.append(message);
    assert(m@ =~= stage_text(stage) + message@);
    IcmError::Database(m)
}

// ---------------------------------------------------------------------------
// The number of components that a database was made for
// ---------------------------------------------------------------------------

/// The number that decimal digits stand for.
pub open spec fn digits_value(s: Seq<char>) -> Option<nat>
    decreases s.len(),
{
    if s.len() == 0 {
        Some(0)
    } else {
        match digits_value(s.drop_last()) {
            Some(n) => if '0' <= s.last() <= '9' {
                Some(10 * n + (s.last() as nat - '0' as nat) as nat)
            } else {
                None
            },
            None => None,
        }
    }
}

/// The digits of a number, without a plus sign before them.
pub open spec fn unsigned_part(s: Seq<char>) -> Seq<char> {
    if s.len() > 0 && s[0] == '+' {
        s.drop_first()
    } else {
        s
    }
}

/// The number that a text stands for: digits, with a plus sign before them or without one, that
/// stand for no more than a `usize` holds.
pub open spec fn number_of(s: Seq<char>) -> Option<usize> {
    let d = unsigned_part(s);
    match digits_value(d) {
        Some(n) => if d.len() > 0 && n <= usize::MAX {
            Some(n as usize)
        } else {
            None
        },
        None => None,
    }
}

/// The number that a text stands for.
pub fn parse_number(s: &str) -> (r: Option<usize>)
    ensures
        r == number_of(s@),
{
    let v = text::chars_of(s);
    let ghost d = unsigned_part(s@);
    let start: usize = if v.len() > 0 && v[0] == '+' {
        1
    } else {
        0
    };
    assert(d =~= v@.skip(start as int));
    if v.len() == start {
        return None;
    }
    let mut n: usize = 0;
    let mut over = false;
    let mut i: usize = start;
    assert(d.take(0) =~= seq![]);
    while i < v.len()
        invariant
            v@ == s@,
            d == unsigned_part(s@),
            d == v@.skip(start as int),
            start <= i <= v@.len(),
            !over ==> digits_value(d.take(i - start)) == Some(n as nat),
            over ==> (digits_value(d.take(i - start)) matches Some(m) && m > usize::MAX),
        decreases v@.len() - i,
    {
        let c = v[i];
        let ghost k = i - start;
        assert(d.take(k + 1).drop_last() =~= d.take(k));
        assert(d.take(k + 1).last() == c);
        if c < '0' || c > '9' {
            assert(digits_value(d.take(k + 1)) is None);
            proof {
                lemma_bad_digit(d, k + 1);
            }
            return None;
        }
        let digit: usize = (c as u32 - '0' as u32) as usize;
        if !over {
            match n.checked_mul(10) {
                Some(m) => match m.checked_add(digit) {
                    Some(sum) => {
                        n = sum;
                    },
                    None => {
                        over = true;
                    },
                },
                None => {
                    over = true;
                },
            }
        }
        i += 1;
    }
    assert(d.take(d.len() as int) =~= d);
    if over {
        None
    } else {
        Some(n)
    }
}

proof fn lemma_bad_digit(s: Seq<char>, k: int)
    requires
        0 <= k <= s.len(),
        digits_value(s.take(k)) is None,
    ensures
        digits_value(s) is None,
    decreases s.len() - k,
{
    if k == s.len() {
        assert(s.take(k) =~= s);
    } else {
        assert(s.take(k + 1).drop_last() =~= s.take(k));
        lemma_bad_digit(s, k + 1);
    }
}

/// Tells whether the vectors of a database are dropped when it is opened for embeddings of `dims`
/// components: they are where the database says another number, or none that can be read.
pub fn drops_vectors(stored: Option<&str>, dims: usize) -> (r: bool)
    ensures
        r == (stored matches Some(s) && number_of(s@) != Some(dims)),
{
    match stored {
        Some(s) => match parse_number(s) {
            Some(n) => n != dims,
            None => true,
        },
        None => false,
    }
}

/// The number of components that a database says its embeddings have: known only where the
/// database is there, has the table of metadata, and that table holds a number.
pub open spec fn stored_dims(is_there: bool, has_metadata: bool, value: Option<Seq<char>>) -> Option<
    usize,
> {
    match value {
        Some(s) => if is_there && has_metadata {
            number_of(s)
        } else {
            None
        },
        None => None,
    }
}

/// The number of components that a database says its embeddings have.
pub fn stored_embedding_dims(is_there: bool, has_metadata: bool, value: Option<&str>) -> (r: Option<
    usize,
>)
    ensures
        r == stored_dims(
            is_there,
            has_metadata,
            text::opt_slice(value),
        ),
{
    if !is_there || !has_metadata {
        return None;
    }
    match value {
        Some(s) => parse_number(s),
        None => None,
    }
}

/// A failure may be gone at the next attempt exactly if its message holds one of four phrases.
pub proof fn lemma_transient_phrases(a: Seq<char>, b: Seq<char>, message: Seq<char>)
    ensures
        is_transient(a + "vtable constructor failed"@ + b),
        is_transient(a + "already exists"@ + b),
        is_transient(a + "database is locked"@ + b),
        is_transient(a + "database is busy"@ + b),
        !text::has_part(message, "vtable constructor failed"@) && !text::has_part(
            message,
            "already exists"@,
        ) && !text::has_part(message, "database is locked"@) && !text::has_part(
            message,
            "database is busy"@,
        ) ==> !is_transient(message),
{
    text::lemma_parts_stand_in_texts(a, "vtable constructor failed"@, b, message);
    text::lemma_parts_stand_in_texts(a, "already exists"@, b, message);
    text::lemma_parts_stand_in_texts(a, "database is locked"@, b, message);
    text::lemma_parts_stand_in_texts(a, "database is busy"@, b, message);
}

/// An attempt that succeeds is the last; one that fails for good is reported; one that fails for
/// now is followed by the next, up to attempt 39, counted from zero.
pub proof fn lemma_next_step(attempt: u32, message: Seq<char>)
    ensures
        step_after(attempt as int, None) == OpenStep::Ready,
        !is_transient(message) ==> step_after(attempt as int, Some(message)) == OpenStep::GiveUp,
        is_transient(message) && attempt < 39 ==> step_after(attempt as int, Some(message)) == (
        OpenStep::Retry { attempt: (attempt + 1) as u32 }),
        is_transient(message) && attempt >= 39 ==> step_after(attempt as int, Some(message))
            == OpenStep::GiveUp,
{
}

/// The first attempt does not wait. Each later one waits fifteen milliseconds more than the one
/// before it, up to the twentieth, and the share of the clock, below forty milliseconds.
pub proof fn lemma_waits(attempt: int, clock_nanos: int)
    requires
        attempt > 0,
        0 <= clock_nanos,
    ensures
        wait_before(0, clock_nanos) == 0,
        wait_before(1, clock_nanos) == 15 + clock_nanos % 40,
        attempt < 20 ==> wait_before(attempt + 1, clock_nanos) == wait_before(attempt, clock_nanos)
            + 15,
        attempt >= 20 ==> wait_before(attempt, clock_nanos) == 300 + clock_nanos % 40,
{
}

/// Each step of opening has its own words.
pub proof fn lemma_stages_have_their_words()
    ensures
        stage_text(OpenStage::Directory) == "cannot create db directory: "@,
        stage_text(OpenStage::File) == "cannot open database: "@,
        stage_text(OpenStage::ReadOnlyFile) == "cannot open database read-only: "@,
        stage_text(OpenStage::InMemory) == "cannot open in-memory db: "@,
{
}

proof fn lemma_decimal_value(n: nat)
    ensures
        digits_value(text::decimal(n)) == Some(n),
        text::decimal(n).len() > 0,
        text::decimal(n)[0] != '+',
    decreases n,
{
    let d = text::decimal(n);
    if n < 10 {
        assert(d.drop_last() =~= seq![]);
        assert(digits_value(d.drop_last()) == Some(0nat));
        assert('0' <= d.last() <= '9');
        assert(d.last() as nat == '0' as nat + n);
    } else {
        lemma_decimal_value(n / 10);
        assert(d.drop_last() =~= text::decimal(n / 10));
        assert('0' <= d.last() <= '9');
        assert(d.last() as nat == '0' as nat + n % 10);
    }
}

/// A number that is written in decimal is read back, with a plus sign before it or without one.
pub proof fn lemma_numbers_read_back(n: usize)
    ensures
        number_of(text::decimal(n as nat)) == Some(n),
        number_of(seq!['+'] + text::decimal(n as nat)) == Some(n),
        stored_dims(true, true, Some(text::decimal(n as nat))) == Some(n),
{
    lemma_decimal_value(n as nat);
    let d = text::decimal(n as nat);
    assert((seq!['+'] + d).drop_first() =~= d);
}

/// A text that is empty, is a mere sign, or holds anything but digits behind one plus sign is no
/// number.
pub proof fn lemma_other_texts_are_no_numbers(s: Seq<char>, i: int)
    ensures
        s.len() == 0 ==> number_of(s) is None,
        s.len() == 1 && s[0] == '+' ==> number_of(s) is None,
        0 < i < s.len() && !('0' <= s[i] <= '9') ==> number_of(s) is None,
        s.len() > 0 && !('0' <= s[0] <= '9') && s[0] != '+' ==> number_of(s) is None,
{
    let d = unsigned_part(s);
    if s.len() > 0 {
        let shift: int = if s[0] == '+' {
            1
        } else {
            0
        };
        assert forall|j: int| shift <= j < s.len() && !('0' <= #[trigger] s[j] <= '9') implies number_of(
            s,
        ) is None by {
            let k = j - shift;
            assert(d[k] == s[j]);
            let head = d.take(k + 1);
            assert(head.last() == d[k]);
            assert(digits_value(head) is None);
            lemma_bad_digit(d, k + 1);
        }
    }
}

/// Nothing is known of a database that is not there, has no metadata, or says nothing.
pub proof fn lemma_unknown_dims(is_there: bool, has_metadata: bool, s: Seq<char>)
    ensures
        stored_dims(is_there, has_metadata, None) is None,
        !(is_there && has_metadata) ==> stored_dims(is_there, has_metadata, Some(s)) is None,
        stored_dims(true, true, Some(s)) == number_of(s),
{
}

} // verus!
