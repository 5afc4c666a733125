//! The `workspaces` patterns of a root manifest: which directories they match,
//! and how deep they can reach.

use vstd::prelude::*;
use vstd::string::*;
use crate::importer::{importer_reading, ImporterPath};
use crate::path::{components, join, put_after, steps};
use crate::text::{chars_of, same};
use crate::workspace::{WorkspaceError, WorkspaceFault};

verus! {

/// A set of globs that is being put together.
#[verifier::external_type_specification]
#[verifier::external_body]
pub struct ExGlobSetBuilder(globset::GlobSetBuilder);

/// A set of globs, ready to be matched.
#[verifier::external_type_specification]
#[verifier::external_body]
pub struct ExGlobSet(globset::GlobSet);

/// The patterns that were added to a builder, in order.
pub uninterp spec fn added_patterns(builder: &globset::GlobSetBuilder) -> Seq<Seq<char>>;

/// The patterns that a set was built from, in order.
pub uninterp spec fn set_patterns(set: &globset::GlobSet) -> Seq<Seq<char>>;

/// Is this pattern a glob, where a `*` stays inside one directory level?
pub uninterp spec fn glob_parses(pattern: Seq<char>) -> bool;

/// Does a glob, whose `*` stays inside one directory level, match a path?
pub uninterp spec fn glob_admits(pattern: Seq<char>, path: Seq<char>) -> bool;

/// Can these globs be matched together?
pub uninterp spec fn set_builds(patterns: Seq<Seq<char>>) -> bool;

/// `globset::GlobSetBuilder::new`: nothing has been added to a new builder.
#[verifier::external_body]
fn new_builder() -> (builder: globset::GlobSetBuilder)
    ensures
        added_patterns(&builder) == Seq::<Seq<char>>::empty(),
{
    globset::GlobSetBuilder::new()
}

/// `globset::GlobBuilder::build` with `literal_separator`, and
/// `globset::GlobSetBuilder::add`: a pattern that is a glob is added behind
/// those before it, and one that is not leaves the builder as it was.
#[verifier::external_body]
fn add_pattern(builder: &mut globset::GlobSetBuilder, pattern: &str) -> (added: bool)
    ensures
        added == glob_parses(pattern@),
        added ==> added_patterns(final(builder)) == added_patterns(old(builder)).push(pattern@),
        !added ==> added_patterns(final(builder)) == added_patterns(old(builder)),
{
    match globset::GlobBuilder::new(pattern).literal_separator(true).build() {
        Ok(glob) => {
            builder.add(glob);
            true
        },
        Err(_) => false,
    }
}

/// `globset::GlobSetBuilder::build`: the set is built from what was added.
/// When the globs can be matched together is not said here.
#[verifier::external_body]
fn build_set(builder: &globset::GlobSetBuilder) -> (set: Option<globset::GlobSet>)
    ensures
        match set {
            Some(set) => set_builds(added_patterns(builder)) && set_patterns(&set)
                == added_patterns(builder),
            None => !set_builds(added_patterns(builder)),
        },
{
    builder.build().ok()
}

/// `globset::GlobSet::matches`: the places of the patterns that match, in
/// ascending order.
#[verifier::external_body]
fn set_matches(set: &globset::GlobSet, path: &str) -> (hits: Vec<usize>)
    ensures
        (forall|i: usize| #[trigger]
            hits@.contains(i) == (set_patterns(set).len() > i && glob_admits(
                set_patterns(set)[i as int],
                path@,
            ))),
        goes_up(hits@),
{
    set.matches(path)
}

/// Does any of the patterns match a path?
pub open spec fn is_hit(patterns: Seq<Seq<char>>, path: Seq<char>) -> bool {
    exists|i: int| 0 <= i < patterns.len() && glob_admits(#[trigger] patterns[i], path)
}

/// Are these the places of the patterns that match a path, in ascending order?
pub open spec fn are_hits(hits: Seq<usize>, patterns: Seq<Seq<char>>, path: Seq<char>) -> bool {
    &&& forall|i: usize| #[trigger]
        hits.contains(i) <==> i < patterns.len() && glob_admits(patterns[i as int], path)
    &&& goes_up(hits)
}

/// Is every place behind the one before it?
pub open spec fn goes_up(places: Seq<usize>) -> bool {
    forall|j: int, k: int| 0 <= j < k < places.len() ==> places[j] < places[k]
}

/// Does a pattern match across any number of directory levels?
pub open spec fn is_unbounded(pattern: Seq<char>) -> bool {
    exists|i: int|
        0 <= i < pattern.len() - 1 && #[trigger] pattern[i] == '*' && pattern[i + 1] == '*'
}

/// The deepest level that some patterns can match at, or none if one of them
/// knows no bound.
pub open spec fn limit_of(patterns: Seq<Seq<char>>) -> Option<nat>
    decreases patterns.len(),
{
    if patterns.len() == 0 {
        Some(0)
    } else {
        match limit_of(patterns.drop_last()) {
            Some(limit) if !is_unbounded(patterns.last()) => {
                let depth = steps(patterns.last()).len();
                if depth > limit {
                    Some(depth)
                } else {
                    Some(limit)
                }
            },
            _ => None,
        }
    }
}

/// What is wrong with one pattern: it leaves the workspace, or it is no glob.
pub open spec fn pattern_fault(pattern: Seq<char>) -> Option<WorkspaceFault> {
    match importer_reading(pattern) {
        Err(source) => Some(WorkspaceFault::EscapesRoot { pattern, source }),
        Ok(_) => if glob_parses(pattern) {
            None
        } else {
            Some(WorkspaceFault::BadPattern { pattern })
        },
    }
}

/// What is wrong with the first pattern that something is wrong with.
pub open spec fn first_pattern_fault(patterns: Seq<Seq<char>>) -> Option<WorkspaceFault>
    decreases patterns.len(),
{
    if patterns.len() == 0 {
        None
    } else {
        match first_pattern_fault(patterns.drop_last()) {
            Some(fault) => Some(fault),
            None => pattern_fault(patterns.last()),
        }
    }
}

/// What is wrong with some patterns.
pub open spec fn patterns_fault(patterns: Seq<Seq<char>>) -> Option<WorkspaceFault> {
    match first_pattern_fault(patterns) {
        Some(fault) => Some(fault),
        None => if set_builds(patterns) {
            None
        } else {
            Some(WorkspaceFault::TooManyPatterns)
        },
    }
}

proof fn faults_persist(patterns: Seq<Seq<char>>, n: int)
    requires
        0 <= n <= patterns.len(),
        first_pattern_fault(patterns.take(n)) is Some,
    ensures
        first_pattern_fault(patterns) == first_pattern_fault(patterns.take(n)),
    decreases patterns.len() - n,
{
    if n < patterns.len() {
        assert(patterns.take(n + 1).drop_last() =~= patterns.take(n));
        faults_persist(patterns, n + 1);
    } else {
        assert(patterns.take(n) =~= patterns);
    }
}

fn holds_double_star(pattern: &str) -> (yes: bool)
    ensures
        yes == is_unbounded(pattern@),
{
    let chars = chars_of(pattern);
    let n: usize = chars.len();
    if n < 2 {
        return false;
    }
    let mut i: usize = 0;
    while i < n - 1
        invariant
            2 <= n == chars@.len(),
            i <= n - 1,
            chars@ == pattern@,
            forall|j: int|
                0 <= j < i ==> !(#[trigger] pattern@[j] == '*' && pattern@[j + 1] == '*'),
        decreases n - i,
    {
        if chars[i] == '*' && chars[i + 1] == '*' {
            assert(pattern@[i as int] == '*' && pattern@[i + 1] == '*');
            return true;
        }
        i = i + 1;
    }
    false
}

/// The compiled `workspaces` patterns, and how deep they can reach.
pub struct MemberGlobs {
    set: globset::GlobSet,
    /// Nothing below this level can be matched, so nothing below it is read.
    depth_limit: Option<usize>,
}

impl DeepView for MemberGlobs {
    type V = Seq<Seq<char>>;

    closed spec fn deep_view(&self) -> Seq<Seq<char>> {
        set_patterns(&self.set)
    }
}

/// Could any of the patterns match something below a directory this deep?
pub open spec fn reaches_below(patterns: Seq<Seq<char>>, depth: nat) -> bool {
    match limit_of(patterns) {
        Some(limit) => depth < limit,
        None => true,
    }
}

impl MemberGlobs {
    #[verifier::type_invariant]
    spec fn well_formed(self) -> bool {
        let patterns = set_patterns(&self.set);
        &&& patterns.len() <= usize::MAX
        &&& match self.depth_limit {
            Some(limit) => limit_of(patterns) == Some(limit as nat),
            None => limit_of(patterns) is None,
        }
    }

    /// Compile patterns. One that leaves the workspace is refused, and so is
    /// one that is no glob.
    pub fn compile(patterns: &Vec<String>) -> (globs: Result<Self, WorkspaceError>)
        ensures
            match globs {
                Ok(globs) => patterns_fault(patterns.deep_view()) is None && globs.deep_view()
                    == patterns.deep_view(),
                Err(error) => patterns_fault(patterns.deep_view()) == Some(error.deep_view()),
            },
    {
        let ghost all = patterns.deep_view();
        let mut builder = new_builder();
        let mut depth_limit: Option<usize> = Some(0);
        let mut i: usize = 0;
        assert(all.take(0) =~= Seq::<Seq<char>>::empty());
        while i < patterns.len()
            invariant
                i <= patterns@.len(),
                all == patterns.deep_view(),
                added_patterns(&builder) == all.take(i as int),
                first_pattern_fault(all.take(i as int)) is None,
                match depth_limit {
                    Some(limit) => limit_of(all.take(i as int)) == Some(limit as nat),
                    None => limit_of(all.take(i as int)) is None,
                },
            decreases patterns.len() - i,
        {
            let pattern = patterns[i].as_str();
            assert(pattern@ == all[i as int]);
            assert(all.take(i + 1).drop_last() =~= all.take(i as int));
            assert(all.take(i + 1) =~= all.take(i as int).push(pattern@));
            match ImporterPath::new(pattern) {
                Ok(_) => {},
                Err(source) => {
                    proof {
                        faults_persist(all, i + 1);
                    }
                    return Err(WorkspaceError::EscapesRoot { pattern: pattern.to_owned(), source });
                },
            }
            if !add_pattern(&mut builder, pattern) {
                proof {
                    faults_persist(all, i + 1);
                }
                return Err(WorkspaceError::BadPattern { pattern: pattern.to_owned() });
            }
            depth_limit =
            match depth_limit {
                Some(limit) => if holds_double_star(pattern) {
                    None
                } else {
                    let depth: usize = components(pattern).len();
                    if depth > limit {
                        Some(depth)
                    } else {
                        Some(limit)
                    }
                },
                None => None,
            };
            i = i + 1;
        }
        assert(all.take(all.len() as int) =~= all);
        match build_set(&builder) {
            Some(set) => Ok(MemberGlobs { set, depth_limit }),
            None => Err(WorkspaceError::TooManyPatterns),
        }
    }

    /// Could any pattern match something below a directory at `depth`?
    pub fn can_reach_below(&self, depth: usize) -> (yes: bool)
        ensures
            yes == reaches_below(self.deep_view(), depth as nat),
    {
        proof {
            use_type_invariant(self);
        }
        match self.depth_limit {
            Some(limit) => depth < limit,
            None => true,
        }
    }

    /// The places of the patterns that match a directory.
    pub fn matches(&self, relative: &str) -> (hits: Vec<usize>)
        ensures
            are_hits(hits@, self.deep_view(), relative@),
    {
        set_matches(&self.set, relative)
    }
}

/// Something found in a directory. A link is not a directory, whatever it
/// points at.
#[derive(Debug)]
pub struct DirEntry {
    pub name: String,
    pub is_dir: bool,
}

/// What a [`DirEntry`] means.
pub struct DirModel {
    pub name: Seq<char>,
    pub is_dir: bool,
}

impl DeepView for DirEntry {
    type V = DirModel;

    open spec fn deep_view(&self) -> DirModel {
        DirModel { name: self.name@, is_dir: self.is_dir }
    }
}

/// A directory below another one.
#[derive(Debug)]
pub struct Child {
    /// Where it is, relative to the workspace root.
    pub relative: String,
    /// Does a pattern match it?
    pub matched: bool,
    /// Is there anything below it to look for?
    pub descend: bool,
}

/// What a [`Child`] means.
pub struct ChildModel {
    pub relative: Seq<char>,
    pub matched: bool,
    pub descend: bool,
}

impl DeepView for Child {
    type V = ChildModel;

    open spec fn deep_view(&self) -> ChildModel {
        ChildModel { relative: self.relative@, matched: self.matched, descend: self.descend }
    }
}

/// Is a directory of this name never looked into? Installed packages are no
/// members, though each of them has a manifest.
pub open spec fn is_pruned(name: Seq<char>) -> bool {
    name == "node_modules"@ || name == ".git"@
}

/// What there is to do about one directory below another.
pub open spec fn child_of(
    patterns: Seq<Seq<char>>,
    relative: Seq<char>,
    name: Seq<char>,
) -> ChildModel {
    let child = put_after(relative, name);
    ChildModel {
        relative: child,
        matched: is_hit(patterns, child),
        descend: reaches_below(patterns, steps(child).len()),
    }
}

/// What there is to do about some of what is in a directory, in order.
pub open spec fn children_among(
    patterns: Seq<Seq<char>>,
    relative: Seq<char>,
    entries: Seq<DirModel>,
) -> Seq<ChildModel>
    decreases entries.len(),
{
    if entries.len() == 0 {
        seq![]
    } else {
        let before = children_among(patterns, relative, entries.drop_last());
        let entry = entries.last();
        if !entry.is_dir || is_pruned(entry.name) {
            before
        } else {
            before.push(child_of(patterns, relative, entry.name))
        }
    }
}

/// What there is to do about what is in a directory, given relative to the
/// workspace root. Nothing, where no pattern reaches; and otherwise each
/// directory in it that is not passed over, with whether it is matched and
/// whether to look into it in turn.
pub fn collect(globs: &MemberGlobs, relative: &str, entries: &Vec<DirEntry>) -> (children: Vec<
    Child,
>)
    ensures
        children.deep_view() == if reaches_below(globs.deep_view(), steps(relative@).len()) {
            children_among(globs.deep_view(), relative@, entries.deep_view())
        } else {
            seq![]
        },
{
    let ghost patterns = globs.deep_view();
    let ghost all = entries.deep_view();
    let mut children: Vec<Child> = Vec::new();
    assert(children.deep_view() =~= seq![]);
    let depth: usize = components(relative).len();
    if !globs.can_reach_below(depth) {
        return children;
    }
    let mut i: usize = 0;
    while i < entries.len()
        invariant
            i <= entries@.len(),
            all == entries.deep_view(),
            patterns == globs.deep_view(),
            children.deep_view() == children_among(patterns, relative@, all.take(i as int)),
        decreases entries.len() - i,
    {
        let entry = &entries[i];
        let ghost before = children.deep_view();
        assert(all.take(i + 1).drop_last() =~= all.take(i as int));
        assert(all.take(i + 1).last() == entry.deep_view());
        if entry.is_dir && !same(entry.name.as_str(), "node_modules") && !same(
            entry.name.as_str(),
            ".git",
        ) {
            let child = join(relative, entry.name.as_str());
            let hits = globs.matches(child.as_str());
            let below: usize = components(child.as_str()).len();
            let found = Child {
                relative: child,
                matched: hits.len() > 0,
                descend: globs.can_reach_below(below),
            };
            proof {
                use_type_invariant(globs);
                if hits@.len() > 0 {
                    assert(hits@.contains(hits@[0]));
                    assert(glob_admits(patterns[hits@[0] as int], found.relative@));
                }
                if is_hit(patterns, found.relative@) {
                    let k = choose|k: int|
                        0 <= k < patterns.len() && glob_admits(
                            #[trigger] patterns[k],
                            found.relative@,
                        );
                    assert(hits@.contains(k as usize));
                }
            }
            let ghost model = found.deep_view();
            children.push(found);
            assert(children.deep_view() =~= before.push(model));
        }
        i = i + 1;
    }
    assert(all.take(all.len() as int) =~= all);
    children
}

/// The walk never stops above a level at which some pattern could still match:
/// the patterns reach below every level that is less deep than one of them.
pub proof fn every_pattern_is_reached(patterns: Seq<Seq<char>>, i: int, depth: nat)
    requires
        0 <= i < patterns.len(),
        depth < steps(patterns[i]).len(),
    ensures
        reaches_below(patterns, depth),
    decreases patterns.len(),
{
    if i < patterns.len() - 1 {
        assert(patterns.drop_last()[i] == patterns[i]);
        every_pattern_is_reached(patterns.drop_last(), i, depth);
    }
}

/// A pattern that matches across levels reaches below every one of them.
pub proof fn double_stars_reach_everything(
    patterns: Seq<Seq<char>>,
    i: int,
    at: int,
    depth: nat,
)
    requires
        0 <= i < patterns.len(),
        0 <= at < patterns[i].len() - 1,
        patterns[i][at] == '*',
        patterns[i][at + 1] == '*',
    ensures
        reaches_below(patterns, depth),
    decreases patterns.len(),
{
    assert(is_unbounded(patterns[i]));
    if i < patterns.len() - 1 {
        assert(patterns.drop_last()[i] == patterns[i]);
        double_stars_reach_everything(patterns.drop_last(), i, at, depth);
        assert(limit_of(patterns.drop_last()) is None || limit_of(patterns) is None) by {
            unbounded_limits(patterns.drop_last(), i);
        }
    }
}

proof fn unbounded_limits(patterns: Seq<Seq<char>>, i: int)
    requires
        0 <= i < patterns.len(),
        is_unbounded(patterns[i]),
    ensures
        limit_of(patterns) is None,
    decreases patterns.len(),
{
    if i < patterns.len() - 1 {
        assert(patterns.drop_last()[i] == patterns[i]);
        unbounded_limits(patterns.drop_last(), i);
    }
}

/// Nothing is looked into for nothing: where the patterns reach below a level,
/// one of them is deeper than that, or matches across levels.
pub proof fn only_patterns_are_reached_for(patterns: Seq<Seq<char>>, depth: nat)
    requires
        reaches_below(patterns, depth),
    ensures
        exists|i: int|
            0 <= i < patterns.len() && (depth < steps(#[trigger] patterns[i]).len() || exists|
                at: int,
            |
                0 <= at < patterns[i].len() - 1 && #[trigger] patterns[i][at] == '*'
                    && patterns[i][at + 1] == '*'),
    decreases patterns.len(),
{
    if patterns.len() > 0 {
        let shorter = patterns.drop_last();
        let last = patterns[patterns.len() - 1];
        if reaches_below(shorter, depth) {
            only_patterns_are_reached_for(shorter, depth);
            let i = choose|i: int|
                0 <= i < shorter.len() && (depth < steps(#[trigger] shorter[i]).len() || exists|
                    at: int,
                |
                    0 <= at < shorter[i].len() - 1 && #[trigger] shorter[i][at] == '*'
                        && shorter[i][at + 1] == '*');
            assert(patterns[i] == shorter[i]);
        } else if is_unbounded(last) {
            assert(patterns[patterns.len() - 1] == last);
        } else {
            assert(depth < steps(patterns[patterns.len() - 1]).len());
        }
    }
}

/// Patterns compile exactly where each of them, on its own, stays inside the
/// workspace and is a glob, and all of them can be matched together.
pub proof fn patterns_compile_where_each_does(patterns: Seq<Seq<char>>)
    ensures
        patterns_fault(patterns) is None <==> {
            &&& set_builds(patterns)
            &&& forall|i: int|
                0 <= i < patterns.len() ==> importer_reading(#[trigger] patterns[i]) is Ok
                    && glob_parses(patterns[i])
        },
{
    faults_are_found(patterns);
}

proof fn faults_are_found(patterns: Seq<Seq<char>>)
    ensures
        first_pattern_fault(patterns) is None <==> forall|i: int|
            0 <= i < patterns.len() ==> importer_reading(#[trigger] patterns[i]) is Ok
                && glob_parses(patterns[i]),
    decreases patterns.len(),
{
    if patterns.len() > 0 {
        let shorter = patterns.drop_last();
        faults_are_found(shorter);
        let last = patterns[patterns.len() - 1];
        if first_pattern_fault(patterns) is None {
            assert forall|i: int| 0 <= i < patterns.len() implies importer_reading(
                #[trigger] patterns[i],
            ) is Ok && glob_parses(patterns[i]) by {
                if i < shorter.len() {
                    assert(shorter[i] == patterns[i]);
                }
            }
        } else if forall|i: int|
            0 <= i < patterns.len() ==> importer_reading(#[trigger] patterns[i]) is Ok
                && glob_parses(patterns[i]) {
            assert forall|i: int| 0 <= i < shorter.len() implies importer_reading(
                #[trigger] shorter[i],
            ) is Ok && glob_parses(shorter[i]) by {
                assert(shorter[i] == patterns[i]);
            }
            assert(importer_reading(patterns[patterns.len() - 1]) is Ok);
        }
    }
}

} // verus!
