//! What every status, every failed attempt, every address and every header
//! comes to.

use vstd::prelude::*;
use vstd::string::*;
use crate::http::{
    after_failure, are_digits, is_blank, package_url, read_status, retry_after, seconds_in,
    segment_of, trim_base, trimmed, verdict_on, version_url, wait_after, without_trailing, worth,
    Next, Retry, Verdict,
};
use crate::text::{replaced, replacing_goes_by_character};

verus! {

/// Every status that is neither a success, nor a 404, nor a 429, nor a 304 to
/// someone who has a copy is a fault, and is tried again, whatever else the
/// response says.
pub proof fn faults_are_tried_again(
    status: u16,
    asked: Option<u64>,
    conditional: bool,
    verdict: Verdict,
)
    requires
        call_ensures(read_status, (status, asked, conditional), verdict),
        status < 200 || status >= 300,
        status != 404,
        status != 429,
        !(conditional && status == 304),
    ensures
        verdict == Verdict::Failed(Retry::Transient),
        verdict_on(status, asked, conditional) == Verdict::Failed(Retry::Transient),
{
}

/// Giving up at once is the verdict only on a 429 that asks for a wait of more
/// than a minute.
pub proof fn only_long_waits_are_not_waited_for(
    status: u16,
    asked: Option<u64>,
    conditional: bool,
    verdict: Verdict,
)
    requires
        call_ensures(read_status, (status, asked, conditional), verdict),
    ensures
        verdict == Verdict::Failed(Retry::No) <==> status == 429 && asked is Some && asked->0 > 60,
        verdict is Failed && verdict->Failed_0 is RateLimited <==> status == 429 && (asked is None
            || asked->0 <= 60),
        status == 429 && (asked is None || asked->0 <= 60) ==> verdict == Verdict::Failed(
            Retry::RateLimited(asked),
        ),
        verdict is Read <==> 200 <= status < 300,
        verdict is NotFound <==> status == 404,
        verdict is NotModified <==> conditional && status == 304,
{
}

/// An attempt is followed by another unless it was the third, or there is no
/// point in one. The wait is what the registry asked for, and is otherwise
/// twice as long each time.
pub proof fn attempts_are_counted(attempt: u32, retry: Retry, next: Next)
    requires
        call_ensures(after_failure, (attempt, retry), next),
    ensures
        next is TryAgain <==> !(retry is No) && attempt < 2,
        next is TryAgain && retry is Transient ==> next->TryAgain_0 == if attempt == 0 {
            100int
        } else {
            200int
        },
        next is TryAgain && retry == Retry::RateLimited(None) ==> next->TryAgain_0 == if attempt
            == 0 {
            1000int
        } else {
            2000int
        },
        next is TryAgain && retry is RateLimited && retry->RateLimited_0 is Some
            ==> next->TryAgain_0 == retry->RateLimited_0->0 * 1000,
{
    reveal_with_fuel(crate::http::doubled, 3);
}

/// Each wait that nobody asked for is twice the one before it, and one that
/// was asked for is never made longer.
pub proof fn waits_double(attempt: nat, asked: u64)
    ensures
        wait_after(Retry::Transient, 0) == 100,
        wait_after(Retry::Transient, attempt + 1) == 2 * wait_after(Retry::Transient, attempt),
        wait_after(Retry::RateLimited(None), 0) == 1000,
        wait_after(Retry::RateLimited(None), attempt + 1) == 2 * wait_after(
            Retry::RateLimited(None),
            attempt,
        ),
        wait_after(Retry::RateLimited(Some(asked)), attempt) == asked * 1000,
{
    let d = crate::http::doubled(attempt);
    assert(100 * (2 * d) == 2 * (100 * d)) by (nonlinear_arith);
    assert(1000 * (2 * d) == 2 * (1000 * d)) by (nonlinear_arith);
}

/// A name is one segment of an address: it holds no separator, each separator
/// of the name is escaped, and everything else stands as it is.
pub proof fn names_are_one_segment(a: Seq<char>, b: Seq<char>, c: char)
    ensures
        !segment_of(a).contains('/'),
        segment_of(a + b) == segment_of(a) + segment_of(b),
        segment_of(seq!['/']) == seq!['%', '2', 'f'],
        c != '/' ==> segment_of(seq![c]) == seq![c],
        segment_of(Seq::empty()) == Seq::<char>::empty(),
{
    reveal_strlit("%2f");
    assert("%2f"@ =~= seq!['%', '2', 'f']);
    replacing_goes_by_character(a, b, '/', "%2f"@, c);
    segments_hold_no_separator(a);
}

proof fn segments_hold_no_separator(a: Seq<char>)
    ensures
        !segment_of(a).contains('/'),
    decreases a.len(),
{
    reveal_strlit("%2f");
    assert("%2f"@ =~= seq!['%', '2', 'f']);
    if a.len() > 0 {
        let rest = a.drop_last();
        let last = seq![a.last()];
        segments_hold_no_separator(rest);
        assert(a =~= rest + last);
        replacing_goes_by_character(rest, last, '/', "%2f"@, a.last());
        let whole = segment_of(a);
        let part = segment_of(rest);
        assert forall|i: int| 0 <= i < whole.len() implies whole[i] != '/' by {
            if i < part.len() {
                assert(part.contains(part[i]));
            } else if a.last() != '/' {
                assert(whole[i] == a.last());
            } else {
                assert(whole[i] == seq!['%', '2', 'f'][i - part.len()]);
            }
        }
    } else {
        replacing_goes_by_character(a, a, '/', "%2f"@, 'x');
    }
}

/// Addresses are made of the base, the name as one segment, and the version.
pub proof fn addresses_are_put_together(
    base: &str,
    name: &str,
    version: &str,
    package: String,
    one: String,
)
    requires
        call_ensures(package_url, (base, name), package),
        call_ensures(version_url, (base, name, version), one),
    ensures
        package@ == base@ + seq!['/'] + segment_of(name@),
        one@ == package@ + seq!['/'] + version@,
{
    reveal_strlit("/");
    assert("/"@ =~= seq!['/']);
}

/// Of a base nothing but the separators that it ends with is taken away, and
/// all of them are.
pub proof fn bases_lose_trailing_separators(base: &str, kept: String)
    requires
        call_ensures(trim_base, (base,), kept),
    ensures
        kept@.len() == 0 || kept@.last() != '/',
        exists|n: int|
            0 <= n <= base@.len() && kept@ == #[trigger] base@.take(n) && forall|i: int|
                n <= i < base@.len() ==> base@[i] == '/',
{
    trailing_separators_go(base@);
}

proof fn trailing_separators_go(text: Seq<char>)
    ensures
        without_trailing(text).len() == 0 || without_trailing(text).last() != '/',
        exists|n: int|
            0 <= n <= text.len() && without_trailing(text) == #[trigger] text.take(n)
                && forall|i: int| n <= i < text.len() ==> text[i] == '/',
    decreases text.len(),
{
    if text.len() > 0 && text.last() == '/' {
        let rest = text.drop_last();
        trailing_separators_go(rest);
        let n = choose|n: int|
            0 <= n <= rest.len() && without_trailing(rest) == #[trigger] rest.take(n)
                && forall|i: int| n <= i < rest.len() ==> rest[i] == '/';
        assert(rest.take(n) =~= text.take(n));
        assert forall|i: int| n <= i < text.len() implies text[i] == '/' by {
            if i < rest.len() {
                assert(rest[i] == '/');
            }
        }
    } else {
        assert(text.take(text.len() as int) =~= text);
    }
}

/// Are these all blanks?
pub open spec fn are_blanks(text: Seq<char>) -> bool {
    forall|i: int| 0 <= i < text.len() ==> #[trigger] text[i] == ' ' || text[i] == '\t'
}

/// Is a text made of something with blanks around it?
pub open spec fn stands_between_blanks(text: Seq<char>, inner: Seq<char>) -> bool {
    exists|before: Seq<char>, after: Seq<char>|
        are_blanks(before) && are_blanks(after) && text == #[trigger] (before + inner + after)
}

/// Of a header's text nothing but the blanks around it is taken away, and all
/// of them are.
pub proof fn only_blanks_are_trimmed(text: Seq<char>)
    ensures
        trimmed(text).len() > 0 ==> {
            let first = trimmed(text)[0];
            let last = trimmed(text).last();
            first != ' ' && first != '\t' && last != ' ' && last != '\t'
        },
        stands_between_blanks(text, trimmed(text)),
    decreases text.len(),
{
    if text.len() > 0 && is_blank(text[0]) {
        only_blanks_are_trimmed(text.drop_first());
        blank_in_front(text, trimmed(text));
    } else if text.len() > 0 && is_blank(text.last()) {
        only_blanks_are_trimmed(text.drop_last());
        blank_behind(text, trimmed(text));
    } else {
        assert(Seq::<char>::empty() + text + Seq::<char>::empty() =~= text);
    }
}

/// One more blank in front.
proof fn blank_in_front(text: Seq<char>, inner: Seq<char>)
    requires
        text.len() > 0,
        is_blank(text[0]),
        stands_between_blanks(text.drop_first(), inner),
    ensures
        stands_between_blanks(text, inner),
{
    let (before, after) = choose|before: Seq<char>, after: Seq<char>|
        are_blanks(before) && are_blanks(after) && text.drop_first() == #[trigger] (before + inner
            + after);
    let more = seq![text[0]] + before;
    assert(more + inner + after =~= seq![text[0]] + (before + inner + after));
    assert(seq![text[0]] + text.drop_first() =~= text);
    assert(are_blanks(more));
}

/// One more blank behind.
proof fn blank_behind(text: Seq<char>, inner: Seq<char>)
    requires
        text.len() > 0,
        is_blank(text.last()),
        stands_between_blanks(text.drop_last(), inner),
    ensures
        stands_between_blanks(text, inner),
{
    let (before, after) = choose|before: Seq<char>, after: Seq<char>|
        are_blanks(before) && are_blanks(after) && text.drop_last() == #[trigger] (before + inner
            + after);
    let more = after.push(text.last());
    assert(before + inner + more =~= (before + inner + after).push(text.last()));
    assert(text.drop_last().push(text.last()) =~= text);
    assert(are_blanks(more));
}

/// A header of digits asks for the number that they spell, one digit behind the
/// other, if that can be held at all.
pub proof fn digits_ask_for_their_number(header: &str, digits: Seq<char>, c: char, n: Option<u64>)
    requires
        call_ensures(retry_after, (header,), n),
        header@ == digits.push(c),
        forall|i: int| 0 <= i < digits.len() ==> '0' <= #[trigger] digits[i] <= '9',
        '0' <= c <= '9',
    ensures
        n is Some ==> n->0 == worth(digits) * 10 + (c as int - 48),
        n is None ==> worth(digits) * 10 + (c as int - 48) > u64::MAX,
        digits.len() == 0 ==> worth(digits) == 0,
        digits.len() > 0 ==> worth(digits) == worth(digits.drop_last()) * 10 + (digits.last() as int
            - 48),
{
    let text = digits.push(c);
    assert(text.drop_last() =~= digits);
    assert(text[0] != '+' && !is_blank(text[0])) by {
        if digits.len() > 0 {
            assert(text[0] == digits[0]);
        }
    }
    assert(trimmed(text) == text);
    assert(are_digits(text)) by {
        assert forall|i: int| 0 <= i < text.len() implies '0' <= #[trigger] text[i] <= '9' by {
            if i < digits.len() {
                assert(text[i] == digits[i]);
            }
        }
    }
}

/// A header that holds anything but digits, a sign in front of them and blanks
/// around them asks for nothing.
pub proof fn dates_ask_for_nothing(header: &str, i: int, n: Option<u64>)
    requires
        call_ensures(retry_after, (header,), n),
        0 <= i < header@.len(),
        header@[i] != ' ',
        header@[i] != '\t',
        header@[i] != '+',
        !('0' <= header@[i] <= '9'),
    ensures
        n is None,
{
    let text = header@;
    only_blanks_are_trimmed(text);
    let inner = trimmed(text);
    let (before, after) = choose|before: Seq<char>, after: Seq<char>|
        are_blanks(before) && are_blanks(after) && text == #[trigger] (before + inner + after);
    let from = before.len() as int;
    if i < from {
        assert(before[i] == text[i]);
    }
    if i >= from + inner.len() {
        assert(after[i - from - inner.len()] == text[i]);
    }
    assert(inner[i - from] == text[i]);
    let digits = if inner.len() > 0 && inner[0] == '+' {
        inner.drop_first()
    } else {
        inner
    };
    if are_digits(digits) {
        let k = if inner[0] == '+' {
            i - from - 1
        } else {
            i - from
        };
        assert(digits[k] == text[i]);
    }
}

} // verus!
