//! How a registry is asked over HTTP: the addresses, what a response means,
//! and when to try again.

use vstd::prelude::*;
use vstd::string::*;
use crate::registry::{RegistryError, RegistryFault};
use crate::text::{chars_of, replace_all, replaced, text_of};

verus! {

/// How many times a read is tried.
pub const MAX_ATTEMPTS: u32 = 3;

/// The first wait after a fault, in milliseconds, doubled each time.
pub const TRANSIENT_BACKOFF: u64 = 100;

/// The first wait after being told to send less without being told how long
/// to wait, in milliseconds, doubled each time.
pub const RATE_LIMIT_BACKOFF: u64 = 1000;

/// The longest wait that a registry can ask for, in seconds.
pub const MAX_RETRY_AFTER: u64 = 60;

/// The largest metadata that is read, in bytes.
pub const MAX_METADATA_BYTES: u64 = 67_108_864;

/// The largest tarball that is read, in bytes.
pub const MAX_TARBALL_BYTES: u64 = 536_870_912;

/// How long to wait at each phase of a request, in milliseconds.
#[derive(Debug, Clone, Copy, PartialEq, Eq, Structural)]
pub struct Deadlines {
    /// Reaching the server.
    pub connect: u64,
    /// Getting an answer out of it.
    pub response: u64,
    /// Reading a metadata body.
    pub metadata_body: u64,
    /// Reading a tarball body, whose size is worth waiting longer for.
    pub tarball_body: u64,
}

impl Deadlines {
    /// What is waited by default.
    pub fn standard() -> (deadlines: Self)
        ensures
            deadlines == (Deadlines {
                connect: 10_000,
                response: 30_000,
                metadata_body: 60_000,
                tarball_body: 300_000,
            }),
    {
        Deadlines {
            connect: 10_000,
            response: 30_000,
            metadata_body: 60_000,
            tarball_body: 300_000,
        }
    }

    /// One deadline for every phase, and four times as much for a tarball.
    pub fn short(deadline: u64) -> (deadlines: Self)
        requires
            deadline * 4 <= u64::MAX,
        ensures
            deadlines == (Deadlines {
                connect: deadline,
                response: deadline,
                metadata_body: deadline,
                tarball_body: (deadline * 4) as u64,
            }),
    {
        Deadlines {
            connect: deadline,
            response: deadline,
            metadata_body: deadline,
            tarball_body: deadline * 4,
        }
    }
}

/// What to do about a failed attempt.
#[derive(Debug, Clone, Copy, PartialEq, Eq, Structural)]
pub enum Retry {
    /// Stop: this is a definite answer, or a wait longer than it is worth.
    No,
    /// Nobody asked for anything: try again promptly.
    Transient,
    /// The registry asked for less traffic, for so many seconds if it said.
    RateLimited(Option<u64>),
}

/// Two to a power.
pub open spec fn doubled(times: nat) -> nat
    decreases times,
{
    if times == 0 {
        1
    } else {
        2 * doubled((times - 1) as nat)
    }
}

/// How long to wait before the attempt after this one, in milliseconds. A
/// wait that the registry named is not doubled.
pub open spec fn wait_after(retry: Retry, attempt: nat) -> nat {
    match retry {
        Retry::No => 0,
        Retry::Transient => TRANSIENT_BACKOFF as nat * doubled(attempt),
        Retry::RateLimited(Some(seconds)) => (seconds * 1000) as nat,
        Retry::RateLimited(None) => RATE_LIMIT_BACKOFF as nat * doubled(attempt),
    }
}

fn power_of_two(times: u32) -> (power: u128)
    requires
        times < 32,
    ensures
        power == doubled(times as nat),
        power <= 0x1_0000_0000,
{
    let mut power: u128 = 1;
    let mut i: u32 = 0;
    assert(doubled(0) == 1);
    proof {
        doubled_is_bounded(31);
    }
    while i < times
        invariant
            i <= times < 32,
            power == doubled(i as nat),
        decreases times - i,
    {
        proof {
            doubled_grows(i as nat, 31);
            doubled_is_bounded(31);
        }
        power = power * 2;
        i = i + 1;
    }
    proof {
        doubled_grows(times as nat, 31);
    }
    power
}

proof fn doubled_grows(a: nat, b: nat)
    requires
        a <= b,
    ensures
        doubled(a) <= doubled(b),
    decreases b,
{
    if a < b {
        doubled_grows(a, (b - 1) as nat);
    }
}

proof fn doubled_is_bounded(n: nat)
    requires
        n <= 31,
    ensures
        doubled(n) <= 0x8000_0000,
{
    doubled_grows(n, 31);
    reveal_with_fuel(doubled, 33);
}

impl Retry {
    /// How long to wait before the attempt after this one, in milliseconds.
    pub fn backoff(&self, n: u32) -> (wait: u128)
        requires
            n < 32,
        ensures
            wait == wait_after(*self, n as nat),
    {
        match self {
            Retry::No => 0,
            Retry::Transient => {
                let power: u128 = power_of_two(n);
                assert(TRANSIENT_BACKOFF as nat * doubled(n as nat) == 100 * power);
                100 * power
            },
            Retry::RateLimited(Some(seconds)) => *seconds as u128 * 1000,
            Retry::RateLimited(None) => {
                let power: u128 = power_of_two(n);
                assert(RATE_LIMIT_BACKOFF as nat * doubled(n as nat) == 1000 * power);
                1000 * power
            },
        }
    }
}

/// What follows a failed attempt.
#[derive(Debug, Clone, Copy, PartialEq, Eq, Structural)]
pub enum Next {
    /// Report the failure.
    GiveUp,
    /// Wait so many milliseconds, and try again.
    TryAgain(u128),
}

/// What follows the failure of one attempt, counting from zero.
pub fn after_failure(attempt: u32, retry: Retry) -> (next: Next)
    ensures
        match next {
            Next::GiveUp => retry is No || attempt + 1 >= MAX_ATTEMPTS,
            Next::TryAgain(wait) => !(retry is No) && attempt + 1 < MAX_ATTEMPTS && wait
                == wait_after(retry, attempt as nat),
        },
{
    match retry {
        Retry::No => Next::GiveUp,
        _ => if attempt >= MAX_ATTEMPTS - 1 {
            Next::GiveUp
        } else {
            Next::TryAgain(retry.backoff(attempt))
        },
    }
}

/// What a response's status means.
#[derive(Debug, Clone, Copy, PartialEq, Eq, Structural)]
pub enum Verdict {
    /// The caller's copy is current.
    NotModified,
    /// What was asked for is not there.
    NotFound,
    /// A failure.
    Failed(Retry),
    /// A body to read.
    Read,
}

/// What to do about a status that is neither success nor "not found". A 429 is
/// an instruction, and anything else is a fault.
pub open spec fn retry_for(status: u16, retry_after: Option<u64>) -> Retry {
    if status != 429 {
        Retry::Transient
    } else {
        match retry_after {
            Some(seconds) => if seconds > MAX_RETRY_AFTER {
                Retry::No
            } else {
                Retry::RateLimited(Some(seconds))
            },
            None => Retry::RateLimited(None),
        }
    }
}

/// What a status means. "Not modified" is looked at before success, because
/// it is not a success status, and only where it can be an answer.
pub open spec fn verdict_on(status: u16, retry_after: Option<u64>, conditional: bool) -> Verdict {
    if conditional && status == 304 {
        Verdict::NotModified
    } else if status == 404 {
        Verdict::NotFound
    } else if 200 <= status < 300 {
        Verdict::Read
    } else {
        Verdict::Failed(retry_for(status, retry_after))
    }
}

/// What a response's status means.
pub fn read_status(status: u16, retry_after: Option<u64>, conditional: bool) -> (verdict: Verdict)
    ensures
        verdict == verdict_on(status, retry_after, conditional),
{
    if conditional && status == 304 {
        return Verdict::NotModified;
    }
    if status == 404 {
        return Verdict::NotFound;
    }
    if 200 <= status && status < 300 {
        return Verdict::Read;
    }
    if status != 429 {
        return Verdict::Failed(Retry::Transient);
    }
    match retry_after {
        Some(seconds) => if seconds > MAX_RETRY_AFTER {
            Verdict::Failed(Retry::No)
        } else {
            Verdict::Failed(Retry::RateLimited(Some(seconds)))
        },
        None => Verdict::Failed(Retry::RateLimited(None)),
    }
}

/// A failure before a response, or in the middle of one: a stall if a
/// deadline ran out, and an unreachable registry if not. Either is tried
/// again promptly.
pub fn from_transport(url: &str, timed_out: bool, source: &str) -> (failure: (RegistryError, Retry))
    ensures
        failure.0.deep_view() == if timed_out {
            RegistryFault::Stalled { url: url@, source: source@ }
        } else {
            RegistryFault::Network { url: url@, source: source@ }
        },
        failure.1 == Retry::Transient,
{
    let error = if timed_out {
        RegistryError::Stalled { url: url.to_owned(), source: source.to_owned() }
    } else {
        RegistryError::Network { url: url.to_owned(), source: source.to_owned() }
    };
    (error, Retry::Transient)
}

/// A failure part-way through a metadata body: a stall if a deadline ran out,
/// and a response that cannot be used if not.
pub fn from_metadata_body(url: &str, timed_out: bool, source: &str) -> (failure: (
    RegistryError,
    Retry,
))
    ensures
        failure.0.deep_view() == if timed_out {
            RegistryFault::Stalled { url: url@, source: source@ }
        } else {
            RegistryFault::MalformedResponse { url: url@, source: source@ }
        },
        failure.1 == Retry::Transient,
{
    if timed_out {
        return from_transport(url, timed_out, source);
    }
    (
        RegistryError::MalformedResponse { url: url.to_owned(), source: source.to_owned() },
        Retry::Transient,
    )
}

/// What a version that is not there means, after asking whether the package
/// is. A probe that failed reports why rather than picking one of the two.
pub fn missing_version(name: &str, version: &str, probe: Result<bool, RegistryError>) -> (error:
    RegistryError)
    ensures
        error.deep_view() == match probe {
            Ok(true) => RegistryFault::VersionNotFound { name: name@, version: version@ },
            Ok(false) => RegistryFault::PackageNotFound(name@),
            Err(error) => error.deep_view(),
        },
{
    match probe {
        Ok(true) => RegistryError::VersionNotFound {
            name: name.to_owned(),
            version: version.to_owned(),
        },
        Ok(false) => RegistryError::PackageNotFound(name.to_owned()),
        Err(error) => error,
    }
}

/// A name as one path segment: the separator of a scope is escaped.
pub open spec fn segment_of(name: Seq<char>) -> Seq<char> {
    replaced(name, '/', "%2f"@)
}

/// A name as one path segment.
pub fn encode_name(name: &str) -> (segment: String)
    ensures
        segment@ == segment_of(name@),
{
    replace_all(name, '/', "%2f")
}

/// A text without the separators it ends with.
pub open spec fn without_trailing(text: Seq<char>) -> Seq<char>
    decreases text.len(),
{
    if text.len() > 0 && text.last() == '/' {
        without_trailing(text.drop_last())
    } else {
        text
    }
}

/// A base address without the separators it ends with.
pub fn trim_base(base: &str) -> (trimmed: String)
    ensures
        trimmed@ == without_trailing(base@),
{
    let chars = chars_of(base);
    let mut end: usize = chars.len();
    assert(base@.take(end as int) =~= base@);
    while end > 0 && chars[end - 1] == '/'
        invariant
            end <= chars@.len(),
            chars@ == base@,
            without_trailing(base@.take(end as int)) == without_trailing(base@),
        decreases end,
    {
        assert(base@.take(end as int).drop_last() =~= base@.take(end - 1));
        end = end - 1;
    }
    let trimmed = text_of(&chars, 0, end);
    assert(trimmed@ =~= base@.take(end as int));
    trimmed
}

/// Where a package's metadata is.
pub fn package_url(base: &str, name: &str) -> (url: String)
    ensures
        url@ == base@ + "/"@ + segment_of(name@),
{
    let mut url = base.to_owned();
    url.append("/");
    url.append(encode_name(name).as_str());
    url
}

/// Where one version's metadata is.
pub fn version_url(base: &str, name: &str, version: &str) -> (url: String)
    ensures
        url@ == base@ + "/"@ + segment_of(name@) + "/"@ + version@,
{
    let mut url = package_url(base, name);
    url.append("/");
    url.append(version);
    url
}

/// A space or a tab.
pub open spec fn is_blank(c: char) -> bool {
    c == ' ' || c == '\t'
}

/// A header's text without the blanks around it.
pub open spec fn trimmed(text: Seq<char>) -> Seq<char>
    decreases text.len(),
{
    if text.len() > 0 && is_blank(text[0]) {
        trimmed(text.drop_first())
    } else if text.len() > 0 && is_blank(text.last()) {
        trimmed(text.drop_last())
    } else {
        text
    }
}

/// What some digits are worth.
pub open spec fn worth(digits: Seq<char>) -> nat
    decreases digits.len(),
{
    if digits.len() == 0 {
        0
    } else {
        worth(digits.drop_last()) * 10 + (digits.last() as nat - 48) as nat
    }
}

/// Are these decimal digits, at least one?
pub open spec fn are_digits(text: Seq<char>) -> bool {
    text.len() > 0 && forall|i: int| 0 <= i < text.len() ==> '0' <= #[trigger] text[i] <= '9'
}

/// How many seconds a `Retry-After` header asks for. It may open with a plus
/// sign, and a number too large to hold is no number.
pub open spec fn seconds_in(header: Seq<char>) -> Option<u64> {
    let text = trimmed(header);
    let digits = if text.len() > 0 && text[0] == '+' {
        text.drop_first()
    } else {
        text
    };
    if are_digits(digits) && worth(digits) <= u64::MAX {
        Some(worth(digits) as u64)
    } else {
        None
    }
}

proof fn worth_grows(digits: Seq<char>, i: int)
    requires
        0 <= i <= digits.len(),
        forall|k: int| 0 <= k < digits.len() ==> '0' <= #[trigger] digits[k] <= '9',
    ensures
        worth(digits.take(i)) <= worth(digits),
    decreases digits.len() - i,
{
    if i < digits.len() {
        worth_grows(digits, i + 1);
        assert(digits.take(i + 1).drop_last() =~= digits.take(i));
    } else {
        assert(digits.take(i) =~= digits);
    }
}

/// How many seconds a `Retry-After` header asks for. A date in one is not
/// read, and counts as no header at all.
pub fn retry_after(header: &str) -> (seconds: Option<u64>)
    ensures
        seconds == seconds_in(header@),
{
    let chars = chars_of(header);
    let ghost all = header@;
    let mut from: usize = 0;
    let mut to: usize = chars.len();
    assert(all.subrange(0, to as int) =~= all);
    while from < to && (chars[from] == ' ' || chars[from] == '\t')
        invariant
            from <= to <= chars@.len(),
            chars@ == all,
            trimmed(all.subrange(from as int, to as int)) == trimmed(all),
        decreases to - from,
    {
        assert(all.subrange(from as int, to as int).drop_first() =~= all.subrange(
            from + 1,
            to as int,
        ));
        from = from + 1;
    }
    while from < to && (chars[to - 1] == ' ' || chars[to - 1] == '\t')
        invariant
            from <= to <= chars@.len(),
            chars@ == all,
            from < to ==> !is_blank(all[from as int]),
            trimmed(all.subrange(from as int, to as int)) == trimmed(all),
        decreases to - from,
    {
        assert(all.subrange(from as int, to as int).drop_last() =~= all.subrange(
            from as int,
            to - 1,
        ));
        to = to - 1;
    }
    let ghost text = all.subrange(from as int, to as int);
    assert(trimmed(all) == text);
    if from < to && chars[from] == '+' {
        assert(text.drop_first() =~= all.subrange(from + 1, to as int));
        from = from + 1;
    }
    let ghost digits = all.subrange(from as int, to as int);
    if from >= to {
        return None;
    }
    let mut k: usize = from;
    while k < to
        invariant
            from <= k <= to <= chars@.len(),
            from < to,
            chars@ == all,
            all == header@,
            digits == all.subrange(from as int, to as int),
            seconds_in(all) == if are_digits(digits) && worth(digits) <= u64::MAX {
                Some(worth(digits) as u64)
            } else {
                None
            },
            forall|j: int| 0 <= j < k - from ==> '0' <= #[trigger] digits[j] <= '9',
        decreases to - k,
    {
        let c: char = chars[k];
        if !('0' <= c && c <= '9') {
            assert(digits[k - from] == c);
            return None;
        }
        k = k + 1;
    }
    assert(are_digits(digits));
    let mut total: u64 = 0;
    let mut i: usize = from;
    while i < to
        invariant
            from <= i <= to <= chars@.len(),
            from < to,
            chars@ == all,
            all == header@,
            digits == all.subrange(from as int, to as int),
            are_digits(digits),
            seconds_in(all) == if worth(digits) <= u64::MAX {
                Some(worth(digits) as u64)
            } else {
                None
            },
            total == worth(digits.take(i - from)),
        decreases to - i,
    {
        let ghost j = i - from;
        assert(digits.take(j + 1).drop_last() =~= digits.take(j));
        assert(digits[j] == chars@[i as int]);
        let digit: u64 = (chars[i] as u32 - 48) as u64;
        proof {
            worth_grows(digits, j + 1);
        }
        match total.checked_mul(10) {
            Some(tens) => match tens.checked_add(digit) {
                Some(sum) => {
                    total = sum;
                },
                None => {
                    return None;
                },
            },
            None => {
                return None;
            },
        }
        i = i + 1;
    }
    assert(digits.take(to - from) =~= digits);
    Some(total)
}

} // verus!
