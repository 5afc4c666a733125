//! Text as sequences of characters: the handful of string operations the
//! rest of the crate is written with, each stated over what the text holds.

use vstd::prelude::*;
use vstd::string::*;
use crate::order::{lex_before, lex_irreflexive, lex_total, lex_transitive, Duplicate, Key, Order};

verus! {

/// `String::push` appends one character and changes nothing else.
pub assume_specification[ String::push ](text: &mut String, c: char)
    ensures
        final(text)@ == old(text)@.push(c),
;

/// The code points of a text.
pub open spec fn codes(text: Seq<char>) -> Seq<int> {
    text.map_values(|c: char| c as int)
}

/// The order of texts by code point, which is also their order byte by byte.
pub open spec fn text_before(a: Seq<char>, b: Seq<char>) -> bool {
    lex_before(codes(a), codes(b))
}

proof fn codes_injective(a: Seq<char>, b: Seq<char>)
    requires
        codes(a) == codes(b),
    ensures
        a == b,
{
    assert(a.len() == codes(a).len());
    assert(b.len() == codes(b).len());
    assert forall|i: int| 0 <= i < a.len() implies a[i] == b[i] by {
        assert(codes(a)[i] == a[i] as int);
        assert(codes(b)[i] == b[i] as int);
    }
    assert(a =~= b);
}

/// The characters of a text, one by one.
pub fn chars_of(text: &str) -> (chars: Vec<char>)
    ensures
        chars@ == text@,
{
    let mut chars: Vec<char> = Vec::new();
    for c in it: text.chars()
        invariant
            chars@ == it.seq().take(it.index()),
            it.seq() == text@,
    {
        chars.push(c);
        assert(it.seq().take(it.index() + 1) =~= it.seq().take(it.index()).push(c));
    }
    assert(text@.take(text@.len() as int) =~= text@);
    chars
}

/// The text that a stretch of characters spells.
pub fn text_of(chars: &Vec<char>, from: usize, to: usize) -> (text: String)
    requires
        from <= to <= chars@.len(),
    ensures
        text@ == chars@.subrange(from as int, to as int),
{
    let mut text = String::new();
    let mut i: usize = from;
    while i < to
        invariant
            from <= i <= to <= chars@.len(),
            text@ == chars@.subrange(from as int, i as int),
        decreases to - i,
    {
        text.push(chars[i]);
        assert(chars@.subrange(from as int, i + 1) =~= chars@.subrange(from as int, i as int).push(
            chars@[i as int],
        ));
        i = i + 1;
    }
    text
}

/// Do two texts hold the same characters?
pub fn same(a: &str, b: &str) -> (equal: bool)
    ensures
        equal == (a@ == b@),
{
    let a_owned = a.to_owned();
    let b_owned = b.to_owned();
    a_owned == b_owned
}

/// How two texts stand to each other by code point.
pub fn order_of(a: &str, b: &str) -> (order: Order)
    ensures
        order is Before <==> text_before(a@, b@),
        order is Same <==> a@ == b@,
        order is After <==> text_before(b@, a@),
{
    let left = chars_of(a);
    let right = chars_of(b);
    let ghost ca = codes(a@);
    let ghost cb = codes(b@);
    let mut i: usize = 0;
    proof {
        lex_irreflexive(ca);
        lex_total(ca, cb);
        if lex_before(ca, cb) && lex_before(cb, ca) {
            lex_transitive(ca, cb, ca);
        }
        if ca == cb {
            codes_injective(a@, b@);
        }
        assert(ca.skip(0) =~= ca);
        assert(cb.skip(0) =~= cb);
    }
    while i < left.len() && i < right.len()
        invariant
            left@ == a@,
            right@ == b@,
            ca == codes(a@),
            cb == codes(b@),
            i <= left@.len(),
            i <= right@.len(),
            lex_before(ca, cb) == lex_before(ca.skip(i as int), cb.skip(i as int)),
            lex_before(cb, ca) == lex_before(cb.skip(i as int), ca.skip(i as int)),
            !(lex_before(ca, cb) && lex_before(cb, ca)),
            !lex_before(ca, ca),
            a@ == b@ <==> !lex_before(ca, cb) && !lex_before(cb, ca),
        decreases left.len() - i,
    {
        let l: char = left[i];
        let r: char = right[i];
        assert(ca.skip(i as int)[0] == l as int);
        assert(cb.skip(i as int)[0] == r as int);
        if l < r {
            return Order::Before;
        }
        if r < l {
            return Order::After;
        }
        assert(ca.skip(i as int).drop_first() =~= ca.skip(i + 1));
        assert(cb.skip(i as int).drop_first() =~= cb.skip(i + 1));
        i = i + 1;
    }
    if i < right.len() {
        Order::Before
    } else if i < left.len() {
        Order::After
    } else {
        Order::Same
    }
}

impl Duplicate for String {
    fn duplicate(&self) -> (copy: Self) {
        self.clone()
    }
}

impl Key for String {
    open spec fn before(a: Seq<char>, b: Seq<char>) -> bool {
        text_before(a, b)
    }

    proof fn before_irreflexive(a: Seq<char>) {
        lex_irreflexive(codes(a));
    }

    proof fn before_transitive(a: Seq<char>, b: Seq<char>, c: Seq<char>) {
        lex_transitive(codes(a), codes(b), codes(c));
    }

    proof fn before_total(a: Seq<char>, b: Seq<char>) {
        lex_total(codes(a), codes(b));
        if codes(a) == codes(b) {
            codes_injective(a, b);
        }
    }

    fn order(&self, other: &Self) -> (order: Order) {
        order_of(self.as_str(), other.as_str())
    }
}

/// Is this the first place where a text holds the character?
pub open spec fn is_first(text: Seq<char>, c: char, i: int) -> bool {
    0 <= i < text.len() && text[i] == c && forall|j: int| 0 <= j < i ==> text[j] != c
}

/// Is this the last place where a text holds the character?
pub open spec fn is_last(text: Seq<char>, c: char, i: int) -> bool {
    0 <= i < text.len() && text[i] == c && forall|j: int| i < j < text.len() ==> text[j] != c
}

/// What stands before and after the first occurrence of a character.
pub open spec fn cut_first(text: Seq<char>, c: char) -> Option<(Seq<char>, Seq<char>)> {
    if text.contains(c) {
        let i = choose|i: int| is_first(text, c, i);
        Some((text.take(i), text.skip(i + 1)))
    } else {
        None
    }
}

/// What stands before and after the last occurrence of a character.
pub open spec fn cut_last(text: Seq<char>, c: char) -> Option<(Seq<char>, Seq<char>)> {
    if text.contains(c) {
        let i = choose|i: int| is_last(text, c, i);
        Some((text.take(i), text.skip(i + 1)))
    } else {
        None
    }
}

/// A character that occurs occurs for the first time somewhere.
pub proof fn first_exists(text: Seq<char>, c: char)
    requires
        text.contains(c),
    ensures
        exists|i: int| is_first(text, c, i),
    decreases text.len(),
{
    if text[0] == c {
        assert(is_first(text, c, 0));
    } else {
        let rest = text.drop_first();
        let k = text.index_of(c);
        assert(rest[k - 1] == c);
        first_exists(rest, c);
        let i = choose|i: int| is_first(rest, c, i);
        assert forall|j: int| 0 <= j < i + 1 implies text[j] != c by {
            if j > 0 {
                assert(rest[j - 1] != c);
            }
        }
        assert(is_first(text, c, i + 1));
    }
}

/// A character that occurs occurs for the last time somewhere.
pub proof fn last_exists(text: Seq<char>, c: char)
    requires
        text.contains(c),
    ensures
        exists|i: int| is_last(text, c, i),
    decreases text.len(),
{
    if text.last() == c {
        assert(is_last(text, c, text.len() - 1));
    } else {
        let rest = text.drop_last();
        let k = text.index_of(c);
        assert(rest[k] == c);
        last_exists(rest, c);
        let i = choose|i: int| is_last(rest, c, i);
        assert forall|j: int| i < j < text.len() implies text[j] != c by {
            if j < text.len() - 1 {
                assert(rest[j] != c);
            }
        }
        assert(is_last(text, c, i));
    }
}

/// There is only one first occurrence, so a cut made at one is the cut.
pub proof fn cut_first_at(text: Seq<char>, c: char, i: int)
    requires
        is_first(text, c, i),
    ensures
        cut_first(text, c) == Some((text.take(i), text.skip(i + 1))),
{
    let k = choose|k: int| is_first(text, c, k);
    assert(is_first(text, c, k));
    if k < i {
        assert(text[k] != c);
    }
    if i < k {
        assert(text[i] != c);
    }
}

/// There is only one last occurrence, so a cut made at one is the cut.
pub proof fn cut_last_at(text: Seq<char>, c: char, i: int)
    requires
        is_last(text, c, i),
    ensures
        cut_last(text, c) == Some((text.take(i), text.skip(i + 1))),
{
    let k = choose|k: int| is_last(text, c, k);
    assert(is_last(text, c, k));
    if k > i {
        assert(text[k] != c);
    }
    if i > k {
        assert(text[i] != c);
    }
}

/// Cut a text at the first occurrence of a character.
pub fn split_first<'a>(text: &'a str, c: char) -> (halves: Option<(&'a str, &'a str)>)
    ensures
        match halves {
            Some((head, tail)) => cut_first(text@, c) == Some((head@, tail@)),
            None => cut_first(text@, c) is None,
        },
{
    let chars = chars_of(text);
    let mut i: usize = 0;
    while i < chars.len()
        invariant
            i <= chars@.len(),
            chars@ == text@,
            forall|j: int| 0 <= j < i ==> chars@[j] != c,
        decreases chars.len() - i,
    {
        if chars[i] == c {
            proof {
                cut_first_at(text@, c, i as int);
            }
            return Some((text.substring_char(0, i), text.substring_char(i + 1, chars.len())));
        }
        i = i + 1;
    }
    None
}

/// Cut a text at the last occurrence of a character.
pub fn split_last<'a>(text: &'a str, c: char) -> (halves: Option<(&'a str, &'a str)>)
    ensures
        match halves {
            Some((head, tail)) => cut_last(text@, c) == Some((head@, tail@)),
            None => cut_last(text@, c) is None,
        },
{
    let chars = chars_of(text);
    let mut i: usize = chars.len();
    while i > 0
        invariant
            i <= chars@.len(),
            chars@ == text@,
            forall|j: int| i <= j < chars@.len() ==> chars@[j] != c,
        decreases i,
    {
        i = i - 1;
        if chars[i] == c {
            proof {
                cut_last_at(text@, c, i as int);
            }
            return Some((text.substring_char(0, i), text.substring_char(i + 1, chars.len())));
        }
    }
    None
}

/// Does a text open with another one?
pub open spec fn opens_with(text: Seq<char>, head: Seq<char>) -> bool {
    text.len() >= head.len() && text.take(head.len() as int) == head
}

/// What follows an opening that a text has.
pub fn after_opening<'a>(text: &'a str, head: &str) -> (rest: Option<&'a str>)
    ensures
        match rest {
            Some(tail) => opens_with(text@, head@) && tail@ == text@.skip(head@.len() as int),
            None => !opens_with(text@, head@),
        },
{
    let n: usize = head.unicode_len();
    let m: usize = text.unicode_len();
    if n <= m && same(text.substring_char(0, n), head) {
        Some(text.substring_char(n, m))
    } else {
        None
    }
}

/// The pieces of a text between the occurrences of a character: always at
/// least one, and one more than there are occurrences.
pub open spec fn pieces(text: Seq<char>, c: char) -> Seq<Seq<char>>
    decreases text.len(),
{
    if text.len() == 0 {
        seq![Seq::<char>::empty()]
    } else {
        let before = pieces(text.drop_last(), c);
        if text.last() == c {
            before.push(Seq::<char>::empty())
        } else {
            before.drop_last().push(before.last().push(text.last()))
        }
    }
}

/// A text is always in at least one piece.
pub proof fn pieces_nonempty(text: Seq<char>, c: char)
    ensures
        pieces(text, c).len() > 0,
    decreases text.len(),
{
    if text.len() > 0 {
        pieces_nonempty(text.drop_last(), c);
    }
}

/// No piece holds the character that the text was cut at.
pub proof fn pieces_hold_no_separator(text: Seq<char>, c: char)
    ensures
        forall|i: int|
            0 <= i < pieces(text, c).len() ==> !(#[trigger] pieces(text, c)[i]).contains(c),
    decreases text.len(),
{
    if text.len() > 0 {
        let before = pieces(text.drop_last(), c);
        pieces_nonempty(text.drop_last(), c);
        pieces_hold_no_separator(text.drop_last(), c);
        assert forall|i: int| 0 <= i < pieces(text, c).len() implies !(#[trigger] pieces(
            text,
            c,
        )[i]).contains(c) by {
            if text.last() == c {
                if i < before.len() {
                    assert(pieces(text, c)[i] == before[i]);
                }
            } else if i < before.len() - 1 {
                assert(pieces(text, c)[i] == before[i]);
            } else {
                let grown = before.last().push(text.last());
                assert(!before[before.len() - 1].contains(c));
                if grown.contains(c) {
                    let j = grown.index_of(c);
                    assert(before.last()[j] == c);
                }
            }
        }
    }
}

/// Cut a text at every occurrence of a character.
pub fn split_all(text: &str, c: char) -> (parts: Vec<String>)
    ensures
        parts.deep_view() == pieces(text@, c),
{
    let chars = chars_of(text);
    let mut parts: Vec<String> = Vec::new();
    let mut current = String::new();
    let mut i: usize = 0;
    assert(text@.take(0).len() == 0);
    assert(parts.deep_view().push(current@) =~= pieces(text@.take(0), c));
    while i < chars.len()
        invariant
            i <= chars@.len(),
            chars@ == text@,
            parts.deep_view().push(current@) == pieces(text@.take(i as int), c),
        decreases chars.len() - i,
    {
        let ghost before = parts.deep_view();
        let ghost open = current@;
        assert(text@.take(i + 1).drop_last() =~= text@.take(i as int));
        assert(before.push(open).drop_last() =~= before);
        if chars[i] == c {
            parts.push(current);
            current = String::new();
            assert(parts.deep_view() =~= before.push(open));
        } else {
            current.push(chars[i]);
        }
        assert(parts.deep_view().push(current@) =~= pieces(text@.take(i + 1), c));
        i = i + 1;
    }
    let ghost before = parts.deep_view();
    let ghost open = current@;
    parts.push(current);
    assert(parts.deep_view() =~= before.push(open));
    assert(text@.take(text@.len() as int) =~= text@);
    parts
}

/// Texts run together with a character between each two.
pub open spec fn joined(parts: Seq<Seq<char>>, c: char) -> Seq<char>
    decreases parts.len(),
{
    if parts.len() == 0 {
        Seq::empty()
    } else if parts.len() == 1 {
        parts[0]
    } else {
        joined(parts.drop_last(), c).push(c) + parts.last()
    }
}

/// Run texts together with a character between each two.
pub fn join_all(parts: &Vec<String>, c: char) -> (text: String)
    ensures
        text@ == joined(parts.deep_view(), c),
{
    let mut text = String::new();
    let mut i: usize = 0;
    while i < parts.len()
        invariant
            i <= parts@.len(),
            text@ == joined(parts.deep_view().take(i as int), c),
        decreases parts.len() - i,
    {
        if i > 0 {
            text.push(c);
        }
        text.append(parts[i].as_str());
        proof {
            let now = parts.deep_view().take(i + 1);
            assert(now.drop_last() =~= parts.deep_view().take(i as int));
            assert(now.last() == parts@[i as int]@);
            if i == 0 {
                assert(now[0] == parts@[0]@);
                assert(text@ =~= now[0]);
            }
        }
        i = i + 1;
    }
    assert(parts.deep_view().take(parts@.len() as int) =~= parts.deep_view());
    text
}

proof fn pieces_of_extension(text: Seq<char>, part: Seq<char>, c: char)
    requires
        !part.contains(c),
    ensures
        pieces(text.push(c) + part, c) == pieces(text, c).push(part),
    decreases part.len(),
{
    let whole = text.push(c) + part;
    if part.len() == 0 {
        assert(whole.drop_last() =~= text);
        assert(whole.last() == c);
        assert(part =~= Seq::<char>::empty());
        assert(pieces(whole, c) =~= pieces(text, c).push(part));
    } else {
        let shorter = part.drop_last();
        assert(whole.drop_last() =~= text.push(c) + shorter);
        assert(forall|x: char| shorter.contains(x) ==> part.contains(x));
        pieces_of_extension(text, shorter, c);
        assert(part.contains(part.last()));
        let before = pieces(text, c).push(shorter);
        assert(before.drop_last() =~= pieces(text, c));
        assert(shorter.push(part.last()) =~= part);
        assert(pieces(whole, c) =~= pieces(text, c).push(part));
    }
}

proof fn pieces_of_one(part: Seq<char>, c: char)
    requires
        !part.contains(c),
    ensures
        pieces(part, c) == seq![part],
    decreases part.len(),
{
    if part.len() > 0 {
        let shorter = part.drop_last();
        assert(forall|x: char| shorter.contains(x) ==> part.contains(x));
        pieces_of_one(shorter, c);
        assert(part.contains(part.last()));
        assert(shorter.push(part.last()) =~= part);
        assert(pieces(part, c) =~= seq![part]);
    } else {
        assert(part =~= Seq::<char>::empty());
        assert(pieces(part, c) =~= seq![part]);
    }
}

/// Cutting undoes joining, for parts that hold no separator themselves.
pub proof fn pieces_of_joined(parts: Seq<Seq<char>>, c: char)
    requires
        parts.len() > 0,
        forall|i: int| 0 <= i < parts.len() ==> !(#[trigger] parts[i]).contains(c),
    ensures
        pieces(joined(parts, c), c) == parts,
    decreases parts.len(),
{
    if parts.len() == 1 {
        pieces_of_one(parts[0], c);
        assert(seq![parts[0]] =~= parts);
    } else {
        let rest = parts.drop_last();
        pieces_of_joined(rest, c);
        pieces_of_extension(joined(rest, c), parts.last(), c);
        assert(rest.push(parts.last()) =~= parts);
    }
}

/// A text with every occurrence of a character replaced by another text.
pub open spec fn replaced(text: Seq<char>, c: char, by: Seq<char>) -> Seq<char>
    decreases text.len(),
{
    if text.len() == 0 {
        Seq::empty()
    } else if text.last() == c {
        replaced(text.drop_last(), c, by) + by
    } else {
        replaced(text.drop_last(), c, by).push(text.last())
    }
}

/// Replace every occurrence of a character by another text.
pub fn replace_all(text: &str, c: char, by: &str) -> (result: String)
    ensures
        result@ == replaced(text@, c, by@),
{
    let chars = chars_of(text);
    let mut result = String::new();
    let mut i: usize = 0;
    while i < chars.len()
        invariant
            i <= chars@.len(),
            chars@ == text@,
            result@ == replaced(text@.take(i as int), c, by@),
        decreases chars.len() - i,
    {
        assert(text@.take(i + 1).drop_last() =~= text@.take(i as int));
        if chars[i] == c {
            result.append(by);
        } else {
            result.push(chars[i]);
        }
        i = i + 1;
    }
    assert(text@.take(text@.len() as int) =~= text@);
    result
}

/// Replacing a character goes character by character: a text in two parts is
/// replaced part by part, the character by what stands for it, and any other by
/// itself.
pub proof fn replacing_goes_by_character(
    a: Seq<char>,
    b: Seq<char>,
    c: char,
    by: Seq<char>,
    other: char,
)
    ensures
        replaced(a + b, c, by) == replaced(a, c, by) + replaced(b, c, by),
        replaced(seq![c], c, by) == by,
        other != c ==> replaced(seq![other], c, by) == seq![other],
        replaced(Seq::empty(), c, by) == Seq::<char>::empty(),
    decreases b.len(),
{
    assert(replaced(Seq::empty(), c, by) =~= Seq::<char>::empty());
    assert(seq![c].drop_last() =~= Seq::empty());
    assert(seq![other].drop_last() =~= Seq::empty());
    assert(replaced(seq![c], c, by) =~= by);
    assert(other != c ==> replaced(seq![other], c, by) =~= seq![other]);
    if b.len() == 0 {
        assert(a + b =~= a);
        assert(replaced(b, c, by) =~= Seq::<char>::empty());
        assert(replaced(a, c, by) + replaced(b, c, by) =~= replaced(a, c, by));
    } else {
        replacing_goes_by_character(a, b.drop_last(), c, by, other);
        assert((a + b).drop_last() =~= a + b.drop_last());
        assert(replaced(a + b, c, by) =~= replaced(a, c, by) + replaced(b, c, by));
    }
}

} // verus!
