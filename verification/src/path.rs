//! Slash-separated paths, read the way the standard library reads them on
//! Unix: a leading separator is the root, a leading `.` is kept, every other
//! `.` and every empty segment says nothing.

use vstd::prelude::*;
use vstd::string::*;
use crate::text::{
    chars_of, join_all, joined, pieces, pieces_hold_no_separator, pieces_nonempty, pieces_of_joined,
    same, split_all,
};

verus! {

/// One step of a path.
pub enum Component {
    /// The filesystem root.
    Root,
    /// The directory the path is read from.
    Current,
    /// One directory up.
    Parent,
    /// A plain name.
    Normal(String),
}

/// What a [`Component`] means.
pub enum Step {
    Root,
    Current,
    Parent,
    Normal(Seq<char>),
}

impl DeepView for Component {
    type V = Step;

    open spec fn deep_view(&self) -> Step {
        match self {
            Component::Root => Step::Root,
            Component::Current => Step::Current,
            Component::Parent => Step::Parent,
            Component::Normal(name) => Step::Normal(name@),
        }
    }
}

/// What one segment between separators contributes: nothing when it is empty
/// or `.`, and one step otherwise.
pub open spec fn step_of(segment: Seq<char>) -> Seq<Step> {
    if segment.len() == 0 || segment == seq!['.'] {
        seq![]
    } else if segment == seq!['.', '.'] {
        seq![Step::Parent]
    } else {
        seq![Step::Normal(segment)]
    }
}

/// What a run of segments contributes, in order.
pub open spec fn steps_of(segments: Seq<Seq<char>>) -> Seq<Step>
    decreases segments.len(),
{
    if segments.len() == 0 {
        seq![]
    } else {
        steps_of(segments.drop_last()) + step_of(segments.last())
    }
}

/// Does a path start at the filesystem root?
pub open spec fn is_absolute(path: Seq<char>) -> bool {
    path.len() > 0 && path[0] == '/'
}

/// The steps a path takes.
pub open spec fn steps(path: Seq<char>) -> Seq<Step> {
    let segments = pieces(path, '/');
    let opening = if is_absolute(path) {
        seq![Step::Root]
    } else if segments[0] == seq!['.'] {
        seq![Step::Current]
    } else {
        seq![]
    };
    opening + steps_of(segments)
}

/// The path that a run of plain names spells.
pub open spec fn spelled(names: Seq<Seq<char>>) -> Seq<char> {
    joined(names, '/')
}

/// Is this a plain name, as one step of a path?
pub open spec fn is_plain(name: Seq<char>) -> bool {
    &&& name.len() > 0
    &&& !name.contains('/')
    &&& name != seq!['.']
    &&& name != seq!['.', '.']
}

/// The steps that a run of plain names takes.
pub open spec fn plainly(names: Seq<Seq<char>>) -> Seq<Step> {
    names.map_values(|name: Seq<char>| Step::Normal(name))
}

proof fn steps_of_plain(names: Seq<Seq<char>>)
    requires
        forall|i: int| 0 <= i < names.len() ==> is_plain(#[trigger] names[i]),
    ensures
        steps_of(names) == plainly(names),
    decreases names.len(),
{
    if names.len() == 0 {
        assert(plainly(names) =~= seq![]);
    } else {
        steps_of_plain(names.drop_last());
        assert(is_plain(names[names.len() - 1]));
        assert(plainly(names) =~= plainly(names.drop_last()) + seq![Step::Normal(names.last())]);
    }
}

/// A path spelled from plain names takes exactly those steps.
pub proof fn steps_of_spelled(names: Seq<Seq<char>>)
    requires
        names.len() > 0,
        forall|i: int| 0 <= i < names.len() ==> is_plain(#[trigger] names[i]),
    ensures
        steps(spelled(names)) == plainly(names),
        !is_absolute(spelled(names)),
        spelled(names).len() > 0,
{
    assert forall|i: int| 0 <= i < names.len() implies !(#[trigger] names[i]).contains('/') by {
        assert(is_plain(names[i]));
    }
    pieces_of_joined(names, '/');
    steps_of_plain(names);
    opening_of_joined(names);
    assert(is_plain(names[0]));
    if is_absolute(spelled(names)) {
        assert(names[0].contains(names[0][0]));
    }
    assert(steps(spelled(names)) =~= plainly(names));
}

proof fn opening_of_joined(names: Seq<Seq<char>>)
    requires
        names.len() > 0,
        names[0].len() > 0,
    ensures
        joined(names, '/').len() > 0,
        joined(names, '/')[0] == names[0][0],
    decreases names.len(),
{
    if names.len() > 1 {
        opening_of_joined(names.drop_last());
    }
}

/// Read a path step by step.
pub fn components(path: &str) -> (found: Vec<Component>)
    ensures
        found.deep_view() == steps(path@),
{
    let chars = chars_of(path);
    let segments = split_all(path, '/');
    proof {
        pieces_nonempty(path@, '/');
        reveal_strlit(".");
        reveal_strlit("..");
        assert("."@ =~= seq!['.']);
        assert(".."@ =~= seq!['.', '.']);
    }
    let ghost all = pieces(path@, '/');
    let mut found: Vec<Component> = Vec::new();
    assert(segments@[0]@ == segments.deep_view()[0]);
    if chars.len() > 0 && chars[0] == '/' {
        found.push(Component::Root);
    } else if same(segments[0].as_str(), ".") {
        found.push(Component::Current);
    }
    let ghost opening = found.deep_view();
    assert(opening =~= if is_absolute(path@) {
        seq![Step::Root]
    } else if all[0] == seq!['.'] {
        seq![Step::Current]
    } else {
        seq![]
    });
    assert(opening + steps_of(all.take(0)) =~= opening);
    let mut i: usize = 0;
    while i < segments.len()
        invariant
            i <= segments@.len(),
            all == segments.deep_view(),
            "."@ == seq!['.'],
            ".."@ == seq!['.', '.'],
            found.deep_view() == opening + steps_of(all.take(i as int)),
        decreases segments.len() - i,
    {
        let segment = segments[i].as_str();
        let ghost before = found.deep_view();
        assert(segment@ == all[i as int]);
        assert(all.take(i + 1).drop_last() =~= all.take(i as int));
        if !segment.is_empty() && !same(segment, ".") {
            if same(segment, "..") {
                found.push(Component::Parent);
                assert(found.deep_view() =~= before.push(Step::Parent));
            } else {
                found.push(Component::Normal(segment.to_owned()));
                assert(found.deep_view() =~= before.push(Step::Normal(segment@)));
            }
        }
        assert(found.deep_view() =~= opening + steps_of(all.take(i + 1)));
        i = i + 1;
    }
    assert(all.take(all.len() as int) =~= all);
    found
}

/// The plain names among the steps of a path.
pub open spec fn plain_names(taken: Seq<Step>) -> Seq<Seq<char>>
    decreases taken.len(),
{
    if taken.len() == 0 {
        seq![]
    } else if taken.last() is Normal {
        plain_names(taken.drop_last()).push(taken.last()->Normal_0)
    } else {
        plain_names(taken.drop_last())
    }
}

/// Does a path only ever go down, saying nothing of where it starts?
pub open spec fn goes_down(taken: Seq<Step>) -> bool {
    forall|i: int| 0 <= i < taken.len() ==> (#[trigger] taken[i] is Current || taken[i] is Normal)
}

/// Where a path that only goes down leads, spelled with plain names alone.
pub open spec fn descended(path: Seq<char>) -> Option<Seq<char>> {
    if goes_down(steps(path)) {
        Some(spelled(plain_names(steps(path))))
    } else {
        None
    }
}

/// Clean a path that only goes down of everything but plain names.
pub fn descend(path: &str) -> (cleaned: Option<String>)
    ensures
        match cleaned {
            Some(cleaned) => descended(path@) == Some(cleaned@),
            None => descended(path@) is None,
        },
{
    let found = components(path);
    let ghost taken = steps(path@);
    let mut names: Vec<String> = Vec::new();
    let mut i: usize = 0;
    while i < found.len()
        invariant
            i <= found@.len(),
            taken == found.deep_view(),
            taken == steps(path@),
            names.deep_view() == plain_names(taken.take(i as int)),
            forall|j: int| 0 <= j < i ==> (#[trigger] taken[j] is Current || taken[j] is Normal),
        decreases found.len() - i,
    {
        assert(taken[i as int] == found@[i as int].deep_view());
        assert(taken.take(i + 1).drop_last() =~= taken.take(i as int));
        let ghost before = names.deep_view();
        match &found[i] {
            Component::Current => {},
            Component::Normal(part) => {
                names.push(part.clone());
                assert(names.deep_view() =~= before.push(part@));
            },
            _ => {
                assert(!goes_down(taken));
                return None;
            },
        }
        i = i + 1;
    }
    assert(taken.take(taken.len() as int) =~= taken);
    Some(join_all(&names, '/'))
}

proof fn plain_names_of_sum(a: Seq<Step>, b: Seq<Step>)
    ensures
        plain_names(a + b) == plain_names(a) + plain_names(b),
    decreases b.len(),
{
    if b.len() == 0 {
        assert(a + b =~= a);
        assert(plain_names(a) + plain_names(b) =~= plain_names(a));
    } else {
        assert((a + b).drop_last() =~= a + b.drop_last());
        plain_names_of_sum(a, b.drop_last());
        assert(plain_names(a + b) =~= plain_names(a) + plain_names(b));
    }
}

proof fn plain_segments(segments: Seq<Seq<char>>)
    requires
        forall|i: int| 0 <= i < segments.len() ==> !(#[trigger] segments[i]).contains('/'),
    ensures
        forall|i: int|
            0 <= i < plain_names(steps_of(segments)).len() ==> is_plain(
                #[trigger] plain_names(steps_of(segments))[i],
            ),
    decreases segments.len(),
{
    if segments.len() > 0 {
        let before = segments.drop_last();
        assert forall|i: int| 0 <= i < before.len() implies !(#[trigger] before[i]).contains('/') by {
            assert(before[i] == segments[i]);
        }
        plain_segments(before);
        let last = segments[segments.len() - 1];
        assert(!last.contains('/'));
        plain_names_of_sum(steps_of(before), step_of(last));
        let tail = step_of(last);
        if tail.len() > 0 {
            assert(tail.drop_last() =~= seq![]);
            assert(plain_names(tail.drop_last()) =~= seq![]);
        }
    } else {
        assert(plain_names(steps_of(segments)) =~= seq![]);
    }
}

/// Every plain name that a path steps through is a plain name.
pub proof fn plain_steps(path: Seq<char>)
    ensures
        forall|i: int|
            0 <= i < plain_names(steps(path)).len() ==> is_plain(
                #[trigger] plain_names(steps(path))[i],
            ),
{
    let segments = pieces(path, '/');
    pieces_hold_no_separator(path, '/');
    plain_segments(segments);
    let opening = if is_absolute(path) {
        seq![Step::Root]
    } else if segments[0] == seq!['.'] {
        seq![Step::Current]
    } else {
        seq![]
    };
    plain_names_of_sum(opening, steps_of(segments));
    assert(plain_names(opening) =~= seq![]) by {
        if opening.len() > 0 {
            assert(opening.drop_last() =~= seq![]);
            assert(plain_names(opening.drop_last()) =~= seq![]);
        }
    }
}

/// The plain names along plain steps are the names themselves.
pub proof fn plain_names_of_plainly(names: Seq<Seq<char>>)
    ensures
        plain_names(plainly(names)) == names,
        goes_down(plainly(names)),
    decreases names.len(),
{
    if names.len() == 0 {
        assert(plain_names(plainly(names)) =~= names);
    } else {
        plain_names_of_plainly(names.drop_last());
        assert(plainly(names).drop_last() =~= plainly(names.drop_last()));
        assert(plain_names(plainly(names)) =~= names);
    }
}

/// One path put after another: an absolute one takes its place, and any other
/// follows it behind one separator.
pub open spec fn put_after(base: Seq<char>, rest: Seq<char>) -> Seq<char> {
    if is_absolute(rest) {
        rest
    } else if base.len() == 0 || base.last() == '/' {
        base + rest
    } else {
        base.push('/') + rest
    }
}

/// Put one path after another.
pub fn join(base: &str, rest: &str) -> (path: String)
    ensures
        path@ == put_after(base@, rest@),
{
    let tail = chars_of(rest);
    if tail.len() > 0 && tail[0] == '/' {
        return rest.to_owned();
    }
    let head = chars_of(base);
    let mut path = base.to_owned();
    if head.len() > 0 && head[head.len() - 1] != '/' {
        path.push('/');
    }
    path.append(rest);
    path
}

/// The name that a path ends with, if it ends with a plain one.
pub open spec fn last_name(path: Seq<char>) -> Option<Seq<char>> {
    let taken = steps(path);
    if taken.len() > 0 && taken.last() is Normal {
        Some(taken.last()->Normal_0)
    } else {
        None
    }
}

/// The name that a path ends with.
pub fn file_name(path: &str) -> (name: Option<String>)
    ensures
        match name {
            Some(name) => last_name(path@) == Some(name@),
            None => last_name(path@) is None,
        },
{
    let found = components(path);
    if found.len() == 0 {
        return None;
    }
    assert(found@[found@.len() - 1].deep_view() == found.deep_view().last());
    match &found[found.len() - 1] {
        Component::Normal(name) => Some(name.clone()),
        _ => None,
    }
}

} // verus!
