//! The content-addressed package store: where each entry lives, and when one
//! that is being written counts as there.

use vstd::prelude::*;
use vstd::string::*;
use crate::integrity::{store_key_of, store_keys_are_distinct, Integrity, IntegrityModel};
use crate::order::Duplicate;
use crate::path::{join, put_after};
use crate::registry::result_view;
use crate::sorted::SortedSet;

verus! {

/// The version of the store's layout.
pub const STORE_VERSION: &'static str = "v1";

/// Why an entry could not be written.
#[derive(Debug)]
pub enum StoreError {
    StagingFailed { path: String, source: String },
    CommitFailed { key: String, source: String },
    Populate { key: String, source: String },
}

/// What a [`StoreError`] says.
pub enum StoreFault {
    StagingFailed { path: Seq<char>, source: Seq<char> },
    CommitFailed { key: Seq<char>, source: Seq<char> },
    Populate { key: Seq<char>, source: Seq<char> },
}

impl DeepView for StoreError {
    type V = StoreFault;

    open spec fn deep_view(&self) -> StoreFault {
        match self {
            StoreError::StagingFailed { path, source } => StoreFault::StagingFailed {
                path: path@,
                source: source@,
            },
            StoreError::CommitFailed { key, source } => StoreFault::CommitFailed {
                key: key@,
                source: source@,
            },
            StoreError::Populate { key, source } => StoreFault::Populate {
                key: key@,
                source: source@,
            },
        }
    }
}

/// The directory name that a digest addresses.
pub fn entry_key(integrity: &Integrity) -> (key: String)
    ensures
        key@ == store_key_of(integrity.deep_view()),
{
    integrity.store_key()
}

/// A content-addressed package store.
#[derive(Debug)]
pub struct Store {
    root: String,
}

impl DeepView for Store {
    type V = Seq<char>;

    closed spec fn deep_view(&self) -> Seq<char> {
        self.root@
    }
}

impl Duplicate for Store {
    fn duplicate(&self) -> (copy: Self) {
        Store { root: self.root.clone() }
    }
}

/// The directory that holds all entries of a store.
pub open spec fn entries_root(root: Seq<char>) -> Seq<char> {
    put_after(root, STORE_VERSION@)
}

/// Where the entry for a digest lives.
pub open spec fn entry_place(root: Seq<char>, integrity: IntegrityModel) -> Seq<char> {
    put_after(entries_root(root), store_key_of(integrity))
}

/// How far committing an entry has come.
#[derive(Debug)]
#[allow(inconsistent_fields)]
pub enum Progress {
    /// The place of the entry was looked at.
    Looked { present: bool },
    /// A directory for unfinished work was made, unless something kept it from
    /// being made, at a path.
    Staged { failure: Option<(String, String)> },
    /// The entry was written there, unless something kept it from being
    /// written.
    Populated { failure: Option<String> },
    /// It was renamed to its place, unless something kept it from that, and an
    /// entry is or is not there now.
    Published { failure: Option<String>, present: bool },
}

/// What a [`Progress`] means.
#[allow(inconsistent_fields)]
pub enum ProgressModel {
    Looked { present: bool },
    Staged { failure: Option<(Seq<char>, Seq<char>)> },
    Populated { failure: Option<Seq<char>> },
    Published { failure: Option<Seq<char>>, present: bool },
}

impl DeepView for Progress {
    type V = ProgressModel;

    open spec fn deep_view(&self) -> ProgressModel {
        match self {
            Progress::Looked { present } => ProgressModel::Looked { present: *present },
            Progress::Staged { failure } => ProgressModel::Staged {
                failure: match failure {
                    Some((path, source)) => Some((path@, source@)),
                    None => None,
                },
            },
            Progress::Populated { failure } => ProgressModel::Populated {
                failure: failure.deep_view(),
            },
            Progress::Published { failure, present } => ProgressModel::Published {
                failure: failure.deep_view(),
                present: *present,
            },
        }
    }
}

/// What to do next to commit an entry.
#[derive(Debug)]
pub enum CommitStep {
    /// Make a directory for unfinished work, inside the store.
    Stage,
    /// Write the entry there.
    Populate,
    /// Rename what was written to this place.
    Publish(String),
    /// Remove what was written, which comes to this.
    Discard(Result<String, StoreError>),
    /// Nothing: it came to this.
    Finish(Result<String, StoreError>),
}

/// What a [`CommitStep`] means.
pub enum StepModel {
    Stage,
    Populate,
    Publish(Seq<char>),
    Discard(Result<Seq<char>, StoreFault>),
    Finish(Result<Seq<char>, StoreFault>),
}

impl DeepView for CommitStep {
    type V = StepModel;

    open spec fn deep_view(&self) -> StepModel {
        match self {
            CommitStep::Stage => StepModel::Stage,
            CommitStep::Populate => StepModel::Populate,
            CommitStep::Publish(place) => StepModel::Publish(place@),
            CommitStep::Discard(outcome) => StepModel::Discard(result_view(*outcome)),
            CommitStep::Finish(outcome) => StepModel::Finish(result_view(*outcome)),
        }
    }
}

/// What to do next to commit an entry. One that is there is left untouched,
/// because its name is the hash of what is in it, and for the same reason it is
/// as good if another writer got there first.
pub open spec fn next_step(
    root: Seq<char>,
    integrity: IntegrityModel,
    progress: ProgressModel,
) -> StepModel {
    let place = entry_place(root, integrity);
    let key = store_key_of(integrity);
    match progress {
        ProgressModel::Looked { present } => if present {
            StepModel::Finish(Ok(place))
        } else {
            StepModel::Stage
        },
        ProgressModel::Staged { failure } => match failure {
            None => StepModel::Populate,
            Some((path, source)) => StepModel::Finish(
                Err(StoreFault::StagingFailed { path, source }),
            ),
        },
        ProgressModel::Populated { failure } => match failure {
            None => StepModel::Publish(place),
            Some(source) => StepModel::Discard(Err(StoreFault::Populate { key, source })),
        },
        ProgressModel::Published { failure, present } => match failure {
            None => StepModel::Finish(Ok(place)),
            Some(source) => StepModel::Discard(
                if present {
                    Ok(place)
                } else {
                    Err(StoreFault::CommitFailed { key, source })
                },
            ),
        },
    }
}

/// Is the entry for a digest among the directories that are there?
pub open spec fn is_held(entries: Set<Seq<char>>, integrity: IntegrityModel) -> bool {
    entries.contains(store_key_of(integrity))
}

impl Store {
    /// The store at a directory.
    pub fn new(root: &str) -> (store: Self)
        ensures
            store.deep_view() == root@,
    {
        Store { root: root.to_owned() }
    }

    /// The directory that holds this layout's entries.
    pub fn versioned_root(&self) -> (path: String)
        ensures
            path@ == entries_root(self.deep_view()),
    {
        join(self.root.as_str(), STORE_VERSION)
    }

    /// The directory holding all entries.
    pub fn entry_path_root(&self) -> (path: String)
        ensures
            path@ == entries_root(self.deep_view()),
    {
        self.versioned_root()
    }

    /// Where the entry for these bytes lives, whether or not it is there.
    pub fn entry_path(&self, integrity: &Integrity) -> (path: String)
        ensures
            path@ == entry_place(self.deep_view(), integrity.deep_view()),
    {
        join(self.versioned_root().as_str(), entry_key(integrity).as_str())
    }

    /// Is the entry for these bytes among the directories that are there?
    pub fn contains(&self, integrity: &Integrity, entries: &SortedSet<String>) -> (yes: bool)
        ensures
            yes == is_held(entries.deep_view(), integrity.deep_view()),
    {
        entries.contains(&entry_key(integrity))
    }

    /// What to do next to commit the entry for these bytes.
    ///
    /// An entry is written beside the others and renamed to its place when it
    /// is whole, so that nothing half-written is ever found there.
    pub fn commit(&self, integrity: &Integrity, progress: Progress) -> (step: CommitStep)
        ensures
            step.deep_view() == next_step(
                self.deep_view(),
                integrity.deep_view(),
                progress.deep_view(),
            ),
    {
        match progress {
            Progress::Looked { present } => if present {
                CommitStep::Finish(Ok(self.entry_path(integrity)))
            } else {
                CommitStep::Stage
            },
            Progress::Staged { failure } => match failure {
                None => CommitStep::Populate,
                Some((path, source)) => CommitStep::Finish(
                    Err(StoreError::StagingFailed { path, source }),
                ),
            },
            Progress::Populated { failure } => match failure {
                None => CommitStep::Publish(self.entry_path(integrity)),
                Some(source) => CommitStep::Discard(
                    Err(StoreError::Populate { key: entry_key(integrity), source }),
                ),
            },
            Progress::Published { failure, present } => match failure {
                None => CommitStep::Finish(Ok(self.entry_path(integrity))),
                Some(source) => if present {
                    CommitStep::Discard(Ok(self.entry_path(integrity)))
                } else {
                    CommitStep::Discard(
                        Err(StoreError::CommitFailed { key: entry_key(integrity), source }),
                    )
                },
            },
        }
    }
}

/// What is in a store: its entries, and the directories of unfinished work.
pub struct StoreModel {
    pub entries: Set<Seq<char>>,
    pub staging: Set<Seq<char>>,
}

/// What comes of each thing that committing an entry does.
pub struct Fates {
    pub staged: Option<(Seq<char>, Seq<char>)>,
    pub populated: Option<Seq<char>>,
    pub published: Option<Seq<char>>,
}

/// What a commit comes to, and what is in the store then, if nobody else is at
/// work in it, when it goes on from some progress. A directory is made under a
/// name of its own, a rename takes it from the one place to the other, and
/// discarding removes it.
pub open spec fn carried_out(
    root: Seq<char>,
    integrity: IntegrityModel,
    name: Seq<char>,
    fates: Fates,
    store: StoreModel,
    progress: ProgressModel,
    steps: nat,
) -> Option<(Result<Seq<char>, StoreFault>, StoreModel)>
    decreases steps,
{
    if steps == 0 {
        None
    } else {
        let key = store_key_of(integrity);
        let less = (steps - 1) as nat;
        let removed = StoreModel { staging: store.staging.remove(name), ..store };
        match next_step(root, integrity, progress) {
            StepModel::Finish(outcome) => Some((outcome, store)),
            StepModel::Discard(outcome) => Some((outcome, removed)),
            StepModel::Stage => carried_out(
                root,
                integrity,
                name,
                fates,
                if fates.staged is None {
                    StoreModel { staging: store.staging.insert(name), ..store }
                } else {
                    store
                },
                ProgressModel::Staged { failure: fates.staged },
                less,
            ),
            StepModel::Populate => carried_out(
                root,
                integrity,
                name,
                fates,
                store,
                ProgressModel::Populated { failure: fates.populated },
                less,
            ),
            StepModel::Publish(_) => if fates.published is None {
                carried_out(
                    root,
                    integrity,
                    name,
                    fates,
                    StoreModel { entries: store.entries.insert(key), ..removed },
                    ProgressModel::Published { failure: None, present: true },
                    less,
                )
            } else {
                carried_out(
                    root,
                    integrity,
                    name,
                    fates,
                    store,
                    ProgressModel::Published {
                        failure: fates.published,
                        present: store.entries.contains(key),
                    },
                    less,
                )
            },
        }
    }
}

/// A commit adds the entry it is for, or nothing at all.
///
/// One that succeeds leaves the entry there. One whose writing fails says so
/// and leaves the entry absent, and so does every other failure. Either way no
/// other entry comes or goes, and no unfinished work is left behind.
pub proof fn a_commit_adds_its_entry_or_nothing(
    root: Seq<char>,
    integrity: IntegrityModel,
    name: Seq<char>,
    fates: Fates,
    store: StoreModel,
)
    requires
        !store.staging.contains(name),
    ensures
        ({
            let held = is_held(store.entries, integrity);
            let ended = carried_out(
                root,
                integrity,
                name,
                fates,
                store,
                ProgressModel::Looked { present: held },
                4,
            );
            let (outcome, after) = ended->0;
            &&& ended is Some
            &&& after.staging == store.staging
            &&& held ==> outcome == Ok::<Seq<char>, StoreFault>(entry_place(root, integrity))
                && after.entries == store.entries
            &&& !held && fates.staged is None && fates.populated is Some ==> outcome == Err::<
                Seq<char>,
                StoreFault,
            >(
                StoreFault::Populate {
                    key: store_key_of(integrity),
                    source: fates.populated->0,
                },
            )
            &&& outcome is Ok <==> is_held(after.entries, integrity)
            &&& outcome is Ok ==> outcome->Ok_0 == entry_place(root, integrity)
            &&& outcome is Err ==> after.entries == store.entries
            &&& forall|other: IntegrityModel|
                other != integrity ==> #[trigger] is_held(after.entries, other) == is_held(
                    store.entries,
                    other,
                )
        }),
{
    reveal_with_fuel(carried_out, 5);
    let held = is_held(store.entries, integrity);
    let ended = carried_out(
        root,
        integrity,
        name,
        fates,
        store,
        ProgressModel::Looked { present: held },
        4,
    );
    assert(store.staging.insert(name).remove(name) =~= store.staging);
    assert(ended is Some);
    let after = (ended->0).1;
    assert forall|other: IntegrityModel| other != integrity implies #[trigger] is_held(
        after.entries,
        other,
    ) == is_held(store.entries, other) by {
        if store_key_of(other) == store_key_of(integrity) {
            store_keys_are_distinct(other, integrity);
        }
    }
}

/// Two digests live in one place only if they are the same digest of the same
/// algorithm.
pub proof fn entries_are_apart(root: Seq<char>, a: IntegrityModel, b: IntegrityModel)
    requires
        entry_place(root, a) == entry_place(root, b),
    ensures
        a == b,
{
    crate::integrity::store_keys_are_case_safe(a);
    crate::integrity::store_keys_are_case_safe(b);
    let base = entries_root(root);
    let ka = store_key_of(a);
    let kb = store_key_of(b);
    assert(ka.len() > 0 ==> crate::integrity::is_case_safe(ka[0]));
    assert(kb.len() > 0 ==> crate::integrity::is_case_safe(kb[0]));
    let pa = entry_place(root, a);
    let pb = entry_place(root, b);
    if base.len() == 0 || base.last() == '/' {
        assert(pa.skip(base.len() as int) =~= ka);
        assert(pb.skip(base.len() as int) =~= kb);
    } else {
        assert(pa.skip(base.len() as int + 1) =~= ka);
        assert(pb.skip(base.len() as int + 1) =~= kb);
    }
    store_keys_are_distinct(a, b);
}

} // verus!
