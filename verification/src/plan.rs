//! The tree that a graph means, and the order it is made in.

use vstd::prelude::*;
use vstd::string::*;
use crate::linker::{
    link_of, package_place, store_place, symlink_dependency_from, symlink_into_store,
    symlink_local, virtual_store, Link, LinkModel,
};
use crate::order::Duplicate;
use crate::path::put_after;
use crate::sorted::{in_order, key_set, SortedMap, SortedSet};

verus! {

/// A package in the virtual store: the directory of its entry, and its own
/// name, which for an alias is not the name that the link takes.
#[derive(Debug)]
pub struct StoreEntry {
    pub dir_name: String,
    pub pkg_name: String,
}

/// What a [`StoreEntry`] means.
pub struct EntryPlace {
    pub dir_name: Seq<char>,
    pub pkg_name: Seq<char>,
}

impl DeepView for StoreEntry {
    type V = EntryPlace;

    open spec fn deep_view(&self) -> EntryPlace {
        EntryPlace { dir_name: self.dir_name@, pkg_name: self.pkg_name@ }
    }
}

impl Duplicate for StoreEntry {
    fn duplicate(&self) -> (copy: Self) {
        StoreEntry { dir_name: self.dir_name.clone(), pkg_name: self.pkg_name.clone() }
    }
}

/// What a link in a project's `node_modules` points at.
#[derive(Debug)]
pub enum ImporterTarget {
    /// A package in the virtual store.
    Entry(StoreEntry),
    /// The directory of a workspace member.
    Member(String),
}

/// What an [`ImporterTarget`] means.
pub enum TargetModel {
    Entry(EntryPlace),
    Member(Seq<char>),
}

impl DeepView for ImporterTarget {
    type V = TargetModel;

    open spec fn deep_view(&self) -> TargetModel {
        match self {
            ImporterTarget::Entry(entry) => TargetModel::Entry(entry.deep_view()),
            ImporterTarget::Member(path) => TargetModel::Member(path@),
        }
    }
}

/// One entry of the virtual store: where its files are linked from, the name
/// of the package, and the links that leave it.
#[derive(Debug)]
pub struct VirtualStoreEntry {
    pub store_path: String,
    pub pkg_name: String,
    pub edges: SortedMap<String, StoreEntry>,
}

/// What a [`VirtualStoreEntry`] means.
pub struct VirtualModel {
    pub store_path: Seq<char>,
    pub pkg_name: Seq<char>,
    pub edges: Map<Seq<char>, EntryPlace>,
}

impl DeepView for VirtualStoreEntry {
    type V = VirtualModel;

    open spec fn deep_view(&self) -> VirtualModel {
        VirtualModel {
            store_path: self.store_path@,
            pkg_name: self.pkg_name@,
            edges: self.edges.deep_view(),
        }
    }
}

/// The tree that a workspace should have: the virtual store at its root, and
/// one `node_modules` for each project.
#[derive(Debug)]
pub struct Plan {
    pub root: String,
    /// The directories of the members, which local links point at.
    pub members: SortedSet<String>,
    /// The entries of the virtual store, by directory name.
    pub entries: SortedMap<String, VirtualStoreEntry>,
    /// The links of each project, by its directory. One that links nothing is
    /// named all the same: it may have links to lose.
    pub importers: SortedMap<String, SortedMap<String, ImporterTarget>>,
}

/// What a [`Plan`] means.
pub struct PlanModel {
    pub root: Seq<char>,
    pub members: Set<Seq<char>>,
    pub entries: Map<Seq<char>, VirtualModel>,
    pub importers: Map<Seq<char>, Map<Seq<char>, TargetModel>>,
}

impl DeepView for Plan {
    type V = PlanModel;

    open spec fn deep_view(&self) -> PlanModel {
        PlanModel {
            root: self.root@,
            members: self.members.deep_view(),
            entries: self.entries.deep_view(),
            importers: self.importers.deep_view(),
        }
    }
}

/// One thing to do.
#[derive(Debug)]
pub enum Step {
    /// Fill an entry of the virtual store.
    Populate { store_path: String, dir_name: String, pkg_name: String },
    /// Write a link.
    Place(Link),
    /// Remove what a project's `node_modules` should no longer hold.
    Converge { importer_dir: String },
    /// Remove what the virtual store should no longer hold.
    Prune,
}

/// What a [`Step`] means.
pub enum StepModel {
    Populate { store_path: Seq<char>, dir_name: Seq<char>, pkg_name: Seq<char> },
    Place(LinkModel),
    Converge { importer_dir: Seq<char> },
    Prune,
}

impl DeepView for Step {
    type V = StepModel;

    open spec fn deep_view(&self) -> StepModel {
        match self {
            Step::Populate { store_path, dir_name, pkg_name } => StepModel::Populate {
                store_path: store_path@,
                dir_name: dir_name@,
                pkg_name: pkg_name@,
            },
            Step::Place(link) => StepModel::Place(link.deep_view()),
            Step::Converge { importer_dir } => StepModel::Converge { importer_dir: importer_dir@ },
            Step::Prune => StepModel::Prune,
        }
    }
}

/// Some entries filled, in order.
pub open spec fn populations(plan: PlanModel, names: Seq<Seq<char>>) -> Seq<StepModel> {
    names.map_values(
        |name: Seq<char>|
            StepModel::Populate {
                store_path: plan.entries[name].store_path,
                dir_name: name,
                pkg_name: plan.entries[name].pkg_name,
            },
    )
}

/// The link for one edge out of an entry.
pub open spec fn edge_link(
    plan: PlanModel,
    owner: Seq<char>,
    link_name: Seq<char>,
) -> StepModel {
    let store = store_place(plan.root);
    let entry = plan.entries[owner].edges[link_name];
    StepModel::Place(
        link_of(
            put_after(put_after(store, owner), "node_modules"@),
            link_name,
            package_place(store, entry.dir_name, entry.pkg_name),
        ),
    )
}

/// The links out of one entry, in order.
pub open spec fn links_from(plan: PlanModel, owner: Seq<char>) -> Seq<StepModel> {
    in_order::<String>(plan.entries[owner].edges.dom()).map_values(
        |link_name: Seq<char>| edge_link(plan, owner, link_name),
    )
}

/// The links out of some entries, in order.
pub open spec fn edge_links(plan: PlanModel, names: Seq<Seq<char>>) -> Seq<StepModel>
    decreases names.len(),
{
    if names.len() == 0 {
        seq![]
    } else {
        edge_links(plan, names.drop_last()) + links_from(plan, names.last())
    }
}

/// One link of a project.
pub open spec fn importer_link(
    plan: PlanModel,
    dir: Seq<char>,
    link_name: Seq<char>,
) -> StepModel {
    let place = match plan.importers[dir][link_name] {
        TargetModel::Entry(entry) => package_place(
            store_place(plan.root),
            entry.dir_name,
            entry.pkg_name,
        ),
        TargetModel::Member(path) => path,
    };
    StepModel::Place(link_of(put_after(dir, "node_modules"@), link_name, place))
}

/// The links of one project, in order.
pub open spec fn links_in(plan: PlanModel, dir: Seq<char>) -> Seq<StepModel> {
    in_order::<String>(plan.importers[dir].dom()).map_values(
        |link_name: Seq<char>| importer_link(plan, dir, link_name),
    )
}

/// The links of some projects, in order.
pub open spec fn importer_links(plan: PlanModel, dirs: Seq<Seq<char>>) -> Seq<StepModel>
    decreases dirs.len(),
{
    if dirs.len() == 0 {
        seq![]
    } else {
        importer_links(plan, dirs.drop_last()) + links_in(plan, dirs.last())
    }
}

/// Some projects cleared of what they should no longer hold, in order.
pub open spec fn convergences(dirs: Seq<Seq<char>>) -> Seq<StepModel> {
    dirs.map_values(|dir: Seq<char>| StepModel::Converge { importer_dir: dir })
}

/// How a plan is carried out. Entries come before the links into them, what is
/// no longer wanted goes once every link is written, and the virtual store is
/// cleared last, when nothing points at what goes.
pub open spec fn plan_steps(plan: PlanModel) -> Seq<StepModel> {
    let entries = in_order::<String>(plan.entries.dom());
    let dirs = in_order::<String>(plan.importers.dom());
    populations(plan, entries) + edge_links(plan, entries) + importer_links(plan, dirs)
        + convergences(dirs) + seq![StepModel::Prune]
}

impl Plan {
    /// A plan for a workspace at a root with these member directories, holding
    /// nothing yet.
    pub fn new(root: &str, members: SortedSet<String>) -> (plan: Self)
        ensures
            plan.deep_view() == (PlanModel {
                root: root@,
                members: members.deep_view(),
                entries: Map::empty(),
                importers: Map::empty(),
            }),
    {
        Plan {
            root: root.to_owned(),
            members,
            entries: SortedMap::new(),
            importers: SortedMap::new(),
        }
    }

    /// Name an entry of the virtual store.
    pub fn add_entry(&mut self, dir_name: &str, entry: VirtualStoreEntry)
        ensures
            final(self).deep_view() == (PlanModel {
                entries: old(self).deep_view().entries.insert(dir_name@, entry.deep_view()),
                ..old(self).deep_view()
            }),
    {
        self.entries.insert(dir_name.to_owned(), entry);
    }

    /// Name a project and its links.
    pub fn add_importer(&mut self, dir: &str, links: SortedMap<String, ImporterTarget>)
        ensures
            final(self).deep_view() == (PlanModel {
                importers: old(self).deep_view().importers.insert(dir@, links.deep_view()),
                ..old(self).deep_view()
            }),
    {
        self.importers.insert(dir.to_owned(), links);
    }

    /// The names that a project's `node_modules` should hold.
    pub fn expected_in(&self, dir: &str) -> (names: SortedSet<String>)
        ensures
            names.deep_view() == if self.deep_view().importers.contains_key(dir@) {
                self.deep_view().importers[dir@].dom()
            } else {
                Set::empty()
            },
    {
        match self.importers.get(&dir.to_owned()) {
            Some(links) => key_set(links),
            None => SortedSet::new(),
        }
    }

    /// The entries that the virtual store should hold.
    pub fn expected_entries(&self) -> (names: SortedSet<String>)
        ensures
            names.deep_view() == self.deep_view().entries.dom(),
    {
        key_set(&self.entries)
    }

    /// How to carry the plan out.
    pub fn apply(&self) -> (steps: Vec<Step>)
        ensures
            steps.deep_view() == plan_steps(self.deep_view()),
    {
        let mut steps: Vec<Step> = Vec::new();
        assert(steps.deep_view() =~= seq![]);
        self.populate(&mut steps);
        let ghost entries = in_order::<String>(self.deep_view().entries.dom());
        let ghost dirs = in_order::<String>(self.deep_view().importers.dom());
        self.link_entries(&mut steps);
        self.link_importers(&mut steps);
        let n: usize = self.importers.len();
        let ghost names = self.importers.keys();
        let ghost before = steps.deep_view();
        assert(before + convergences(names.take(0)) =~= before);
        let mut i: usize = 0;
        while i < n
            invariant
                i <= n == names.len(),
                names == self.importers.keys(),
                steps.deep_view() == before + convergences(names.take(i as int)),
            decreases n - i,
        {
            let ghost so_far = steps.deep_view();
            let step = Step::Converge { importer_dir: self.importers.key_at(i).clone() };
            let ghost done = step.deep_view();
            steps.push(step);
            assert(steps.deep_view() =~= so_far.push(done));
            assert(convergences(names.take(i + 1)) =~= convergences(names.take(i as int)).push(
                done,
            ));
            assert(steps.deep_view() =~= before + convergences(names.take(i + 1)));
            i = i + 1;
        }
        assert(names.take(n as int) =~= names);
        let ghost so_far = steps.deep_view();
        steps.push(Step::Prune);
        assert(steps.deep_view() =~= so_far.push(StepModel::Prune));
        assert(steps.deep_view() =~= plan_steps(self.deep_view()));
        steps
    }

    fn populate(&self, steps: &mut Vec<Step>)
        ensures
            final(steps).deep_view() == old(steps).deep_view() + populations(
                self.deep_view(),
                in_order::<String>(self.deep_view().entries.dom()),
            ),
    {
        let ghost plan = self.deep_view();
        let ghost before = steps.deep_view();
        let n: usize = self.entries.len();
        let ghost names = self.entries.keys();
        assert(before + populations(plan, names.take(0)) =~= before);
        let mut i: usize = 0;
        while i < n
            invariant
                i <= n == names.len(),
                names == self.entries.keys(),
                plan == self.deep_view(),
                steps.deep_view() == before + populations(plan, names.take(i as int)),
            decreases n - i,
        {
            let entry = self.entries.value_at(i);
            let ghost so_far = steps.deep_view();
            let step = Step::Populate {
                store_path: entry.store_path.clone(),
                dir_name: self.entries.key_at(i).clone(),
                pkg_name: entry.pkg_name.clone(),
            };
            let ghost done = step.deep_view();
            steps.push(step);
            assert(steps.deep_view() =~= so_far.push(done));
            assert(populations(plan, names.take(i + 1)) =~= populations(
                plan,
                names.take(i as int),
            ).push(done));
            assert(steps.deep_view() =~= before + populations(plan, names.take(i + 1)));
            i = i + 1;
        }
        assert(names.take(n as int) =~= names);
    }

    fn link_entries(&self, steps: &mut Vec<Step>)
        ensures
            final(steps).deep_view() == old(steps).deep_view() + edge_links(
                self.deep_view(),
                in_order::<String>(self.deep_view().entries.dom()),
            ),
    {
        let ghost plan = self.deep_view();
        let ghost before = steps.deep_view();
        let n: usize = self.entries.len();
        let ghost names = self.entries.keys();
        assert(before + edge_links(plan, names.take(0)) =~= before);
        let mut i: usize = 0;
        while i < n
            invariant
                i <= n == names.len(),
                names == self.entries.keys(),
                plan == self.deep_view(),
                steps.deep_view() == before + edge_links(plan, names.take(i as int)),
            decreases n - i,
        {
            assert(names.take(i + 1).drop_last() =~= names.take(i as int));
            let ghost so_far = steps.deep_view();
            self.link_entry(i, steps);
            assert(steps.deep_view() =~= before + edge_links(plan, names.take(i + 1)));
            i = i + 1;
        }
        assert(names.take(n as int) =~= names);
    }

    fn link_entry(&self, i: usize, steps: &mut Vec<Step>)
        requires
            i < self.entries.keys().len(),
        ensures
            final(steps).deep_view() == old(steps).deep_view() + links_from(
                self.deep_view(),
                self.entries.keys()[i as int],
            ),
    {
        let ghost plan = self.deep_view();
        let ghost before = steps.deep_view();
        let store = virtual_store(self.root.as_str());
        let owner = self.entries.key_at(i);
        let edges = &self.entries.value_at(i).edges;
        let n: usize = edges.len();
        let ghost names = edges.keys();
        let ghost goal = links_from(plan, owner@);
        assert(before + goal.take(0) =~= before);
        let mut j: usize = 0;
        while j < n
            invariant
                j <= n == names.len(),
                names == edges.keys(),
                plan == self.deep_view(),
                store@ == store_place(plan.root),
                goal == links_from(plan, owner@),
                edges.deep_view() == plan.entries[owner@].edges,
                names == in_order::<String>(plan.entries[owner@].edges.dom()),
                goal.len() == n,
                steps.deep_view() == before + goal.take(j as int),
            decreases n - j,
        {
            let entry = edges.value_at(j);
            let ghost so_far = steps.deep_view();
            let link = symlink_into_store(
                store.as_str(),
                owner.as_str(),
                edges.key_at(j).as_str(),
                entry.dir_name.as_str(),
                entry.pkg_name.as_str(),
            );
            let step = Step::Place(link);
            let ghost done = step.deep_view();
            steps.push(step);
            assert(steps.deep_view() =~= so_far.push(done));
            assert(goal[j as int] == edge_link(plan, owner@, names[j as int]));
            assert(goal.take(j + 1) =~= goal.take(j as int).push(done));
            assert(steps.deep_view() =~= before + goal.take(j + 1));
            j = j + 1;
        }
        assert(goal.take(n as int) =~= goal);
    }

    fn link_importers(&self, steps: &mut Vec<Step>)
        ensures
            final(steps).deep_view() == old(steps).deep_view() + importer_links(
                self.deep_view(),
                in_order::<String>(self.deep_view().importers.dom()),
            ),
    {
        let ghost plan = self.deep_view();
        let ghost before = steps.deep_view();
        let n: usize = self.importers.len();
        let ghost names = self.importers.keys();
        assert(before + importer_links(plan, names.take(0)) =~= before);
        let mut i: usize = 0;
        while i < n
            invariant
                i <= n == names.len(),
                names == self.importers.keys(),
                plan == self.deep_view(),
                steps.deep_view() == before + importer_links(plan, names.take(i as int)),
            decreases n - i,
        {
            assert(names.take(i + 1).drop_last() =~= names.take(i as int));
            self.link_importer(i, steps);
            assert(steps.deep_view() =~= before + importer_links(plan, names.take(i + 1)));
            i = i + 1;
        }
        assert(names.take(n as int) =~= names);
    }

    fn link_importer(&self, i: usize, steps: &mut Vec<Step>)
        requires
            i < self.importers.keys().len(),
        ensures
            final(steps).deep_view() == old(steps).deep_view() + links_in(
                self.deep_view(),
                self.importers.keys()[i as int],
            ),
    {
        let ghost plan = self.deep_view();
        let ghost before = steps.deep_view();
        let dir = self.importers.key_at(i);
        let links = self.importers.value_at(i);
        let n: usize = links.len();
        let ghost names = links.keys();
        let ghost goal = links_in(plan, dir@);
        assert(before + goal.take(0) =~= before);
        let mut j: usize = 0;
        while j < n
            invariant
                j <= n == names.len(),
                names == links.keys(),
                plan == self.deep_view(),
                goal == links_in(plan, dir@),
                links.deep_view() == plan.importers[dir@],
                names == in_order::<String>(plan.importers[dir@].dom()),
                goal.len() == n,
                steps.deep_view() == before + goal.take(j as int),
            decreases n - j,
        {
            let link_name = links.key_at(j);
            let ghost so_far = steps.deep_view();
            let link = match links.value_at(j) {
                ImporterTarget::Entry(entry) => symlink_dependency_from(
                    dir.as_str(),
                    self.root.as_str(),
                    link_name.as_str(),
                    entry.dir_name.as_str(),
                    entry.pkg_name.as_str(),
                ),
                ImporterTarget::Member(path) => symlink_local(
                    dir.as_str(),
                    link_name.as_str(),
                    path.as_str(),
                ),
            };
            let step = Step::Place(link);
            let ghost done = step.deep_view();
            steps.push(step);
            assert(steps.deep_view() =~= so_far.push(done));
            assert(goal[j as int] == importer_link(plan, dir@, names[j as int]));
            assert(goal.take(j + 1) =~= goal.take(j as int).push(done));
            assert(steps.deep_view() =~= before + goal.take(j + 1));
            j = j + 1;
        }
        assert(goal.take(n as int) =~= goal);
    }
}

} // verus!
