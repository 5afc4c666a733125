//! The projects of a workspace, identified by where they sit in it.

use vstd::prelude::*;
use vstd::string::*;
use crate::order::{Duplicate, Key, Order};
use crate::path::{
    descend, descended, is_absolute, is_plain, plain_names, plain_names_of_plainly, plain_steps,
    plainly, spelled, steps, steps_of_spelled, Step,
};
use crate::text::{
    chars_of, join_all, joined, order_of, pieces, pieces_of_joined, same, split_all, text_before,
};

verus! {

/// A workspace-relative directory that declares dependencies. `.` is the
/// workspace root.
#[derive(Debug)]
pub struct ImporterPath {
    path: String,
}

/// Why a directory cannot be an importer.
#[derive(Debug)]
pub enum ImporterPathError {
    Absolute(String),
    EscapesRoot(String),
    Empty,
}

/// What an [`ImporterPathError`] says.
pub enum ImporterFault {
    Absolute(Seq<char>),
    EscapesRoot(Seq<char>),
    Empty,
}

impl DeepView for ImporterPathError {
    type V = ImporterFault;

    open spec fn deep_view(&self) -> ImporterFault {
        match self {
            ImporterPathError::Absolute(raw) => ImporterFault::Absolute(raw@),
            ImporterPathError::EscapesRoot(raw) => ImporterFault::EscapesRoot(raw@),
            ImporterPathError::Empty => ImporterFault::Empty,
        }
    }
}

/// The spelling of the workspace root.
pub open spec fn root_path() -> Seq<char> {
    seq!['.']
}

/// Is this how an importer is spelled: the root, or a run of plain names?
pub open spec fn is_importer(path: Seq<char>) -> bool {
    path == root_path() || {
        let names = plain_names(steps(path));
        &&& names.len() > 0
        &&& steps(path) == plainly(names)
        &&& path == spelled(names)
    }
}

/// Which importer a directory is, or why it is none.
pub open spec fn importer_reading(raw: Seq<char>) -> Result<Seq<char>, ImporterFault> {
    if raw.len() == 0 {
        Err(ImporterFault::Empty)
    } else if is_absolute(raw) {
        Err(ImporterFault::Absolute(raw))
    } else {
        match descended(raw) {
            Some(path) => if path.len() == 0 {
                Ok(root_path())
            } else {
                Ok(path)
            },
            None => Err(ImporterFault::EscapesRoot(raw)),
        }
    }
}

/// How many directories below the root an importer sits.
pub open spec fn depth_of(path: Seq<char>) -> nat {
    if path == root_path() {
        0
    } else {
        plain_names(steps(path)).len()
    }
}

impl DeepView for ImporterPath {
    type V = Seq<char>;

    closed spec fn deep_view(&self) -> Seq<char> {
        self.path@
    }
}

impl Duplicate for ImporterPath {
    fn duplicate(&self) -> (copy: Self) {
        proof {
            use_type_invariant(self);
        }
        ImporterPath { path: self.path.clone() }
    }
}

impl Key for ImporterPath {
    open spec fn before(a: Seq<char>, b: Seq<char>) -> bool {
        text_before(a, b)
    }

    proof fn before_irreflexive(a: Seq<char>) {
        String::before_irreflexive(a);
    }

    proof fn before_transitive(a: Seq<char>, b: Seq<char>, c: Seq<char>) {
        String::before_transitive(a, b, c);
    }

    proof fn before_total(a: Seq<char>, b: Seq<char>) {
        String::before_total(a, b);
    }

    fn order(&self, other: &Self) -> (order: Order) {
        order_of(self.path.as_str(), other.path.as_str())
    }
}

/// Cleaning a path that goes down always gives an importer.
pub proof fn readings_are_importers(raw: Seq<char>)
    ensures
        importer_reading(raw) is Ok ==> is_importer(importer_reading(raw)->Ok_0),
{
    plain_steps(raw);
    let names = plain_names(steps(raw));
    if names.len() > 0 {
        steps_of_spelled(names);
        plain_names_of_plainly(names);
    } else {
        assert(spelled(names) =~= seq![]);
    }
}

/// An importer is its own reading: however many times a path is read, it
/// names one directory by one spelling.
pub proof fn reading_is_idempotent(path: Seq<char>)
    requires
        is_importer(path),
    ensures
        importer_reading(path) == Ok::<Seq<char>, ImporterFault>(path),
{
    if path == root_path() {
        root_steps();
    } else {
        let names = plain_names(steps(path));
        plain_steps(path);
        steps_of_spelled(names);
        plain_names_of_plainly(names);
    }
}

/// The root is read as one step, to where it already is.
proof fn root_steps()
    ensures
        steps(root_path()) == seq![Step::Current],
        importer_reading(root_path()) == Ok::<Seq<char>, ImporterFault>(root_path()),
{
    let path = root_path();
    assert(joined(seq![path], '/') =~= path);
    assert(!path.contains('/'));
    pieces_of_joined(seq![path], '/');
    let segments = pieces(path, '/');
    assert(segments == seq![path]);
    assert(segments.drop_last() =~= seq![]);
    reveal_with_fuel(crate::path::steps_of, 2);
    assert(crate::path::steps_of(segments) =~= seq![]);
    assert(steps(path) =~= seq![Step::Current]);
    reveal_with_fuel(plain_names, 2);
    assert(steps(path).drop_last() =~= seq![]);
    assert(plain_names(steps(path)) =~= seq![]);
    assert(spelled(plain_names(steps(path))) =~= seq![]);
}

/// No importer but the root climbs, starts at the filesystem root, or stands
/// still: each of its steps is down into a plainly named directory.
pub proof fn importers_never_escape(path: Seq<char>)
    requires
        is_importer(path),
        path != root_path(),
    ensures
        !is_absolute(path),
        forall|i: int| 0 <= i < steps(path).len() ==> #[trigger] steps(path)[i] is Normal,
        depth_of(path) == steps(path).len(),
        depth_of(path) > 0,
{
    plain_steps(path);
    steps_of_spelled(plain_names(steps(path)));
}

impl ImporterPath {
    #[verifier::type_invariant]
    spec fn well_formed(self) -> bool {
        is_importer(self.path@)
    }

    /// The workspace root, and the only importer a single project has.
    pub fn root() -> (root: Self)
        ensures
            root.deep_view() == root_path(),
    {
        let path = ".".to_owned();
        proof {
            reveal_strlit(".");
            assert(path@ =~= root_path());
        }
        ImporterPath { path }
    }

    /// Validate a workspace-relative directory, and spell it the one way that
    /// its several spellings share.
    pub fn new(raw: &str) -> (read: Result<Self, ImporterPathError>)
        ensures
            match read {
                Ok(path) => importer_reading(raw@) == Ok::<Seq<char>, ImporterFault>(
                    path.deep_view(),
                ),
                Err(error) => importer_reading(raw@) == Err::<Seq<char>, ImporterFault>(
                    error.deep_view(),
                ),
            },
    {
        if raw.is_empty() {
            return Err(ImporterPathError::Empty);
        }
        let chars = chars_of(raw);
        if chars[0] == '/' {
            return Err(ImporterPathError::Absolute(raw.to_owned()));
        }
        proof {
            readings_are_importers(raw@);
        }
        match descend(raw) {
            Some(path) => if path.as_str().is_empty() {
                Ok(ImporterPath::root())
            } else {
                Ok(ImporterPath { path })
            },
            None => Err(ImporterPathError::EscapesRoot(raw.to_owned())),
        }
    }

    /// The path as it is spelled.
    pub fn as_str(&self) -> (path: &str)
        ensures
            path@ == self.deep_view(),
            is_importer(path@),
    {
        proof {
            use_type_invariant(self);
        }
        self.path.as_str()
    }

    /// Is this the workspace root?
    pub fn is_root(&self) -> (yes: bool)
        ensures
            yes == (self.deep_view() == root_path()),
    {
        proof {
            reveal_strlit(".");
            assert("."@ =~= root_path());
        }
        same(self.path.as_str(), ".")
    }

    /// How many directories deep this importer sits below the root.
    pub fn depth(&self) -> (depth: usize)
        ensures
            depth == depth_of(self.deep_view()),
    {
        proof {
            use_type_invariant(self);
        }
        if self.is_root() {
            0
        } else {
            proof {
                let names = plain_names(steps(self.path@));
                plain_steps(self.path@);
                assert forall|i: int| 0 <= i < names.len() implies !(#[trigger] names[i]).contains(
                    '/',
                ) by {
                    assert(is_plain(names[i]));
                }
                pieces_of_joined(names, '/');
            }
            let parts = split_all(self.path.as_str(), '/');
            assert(parts.deep_view().len() == parts@.len());
            parts.len()
        }
    }
}

/// So many climbs.
pub open spec fn climbs(n: nat) -> Seq<Seq<char>> {
    Seq::new(n, |i: int| seq!['.', '.'])
}

/// Where a member sits, as seen from an importer: up to the root, one climb
/// per directory, and down from there. A project as seen from the root it is
/// itself is `.`.
pub open spec fn path_between(importer: Seq<char>, member: Seq<char>) -> Seq<char> {
    let parts = climbs(depth_of(importer)) + (if member == root_path() {
        seq![]
    } else {
        seq![member]
    });
    if parts.len() == 0 {
        root_path()
    } else {
        joined(parts, '/')
    }
}

/// Where `member` sits, as seen from `importer`.
pub fn local_path(importer: &ImporterPath, member: &ImporterPath) -> (path: String)
    ensures
        path@ == path_between(importer.deep_view(), member.deep_view()),
{
    proof {
        reveal_strlit("..");
        reveal_strlit(".");
        assert(".."@ =~= seq!['.', '.']);
        assert("."@ =~= root_path());
    }
    let mut parts: Vec<String> = Vec::new();
    let depth: usize = importer.depth();
    let mut i: usize = 0;
    while i < depth
        invariant
            i <= depth,
            parts@.len() == i,
            ".."@ == seq!['.', '.'],
            parts.deep_view() == climbs(i as nat),
        decreases depth - i,
    {
        let ghost before = parts.deep_view();
        parts.push("..".to_owned());
        assert(parts.deep_view() =~= before.push(seq!['.', '.']));
        assert(parts.deep_view() =~= climbs((i + 1) as nat));
        i = i + 1;
    }
    let ghost up = parts.deep_view();
    if !member.is_root() {
        parts.push(member.as_str().to_owned());
        assert(parts.deep_view() =~= up + seq![member.deep_view()]);
    } else {
        assert(up =~= up + Seq::<Seq<char>>::empty());
    }
    assert(parts.deep_view().len() == parts@.len());
    if parts.len() == 0 {
        ".".to_owned()
    } else {
        join_all(&parts, '/')
    }
}

} // verus!
