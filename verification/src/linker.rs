//! Where links go, what they point at, and which of them are jerky's to
//! remove.

use vstd::prelude::*;
use vstd::string::*;
use crate::path::{components, join, put_after, steps, Component, Step};
use crate::sorted::{in_order, SortedMap, SortedSet};
use crate::text::{cut_last, join_all, joined, same, split_last};

verus! {

/// The directory that unpacked packages are kept in.
pub const VIRTUAL_STORE_DIR: &'static str = ".jerky";

/// The directory that unfinished work is kept in.
pub const STAGING_DIR: &'static str = ".staging";

/// Why a link could not be made.
#[derive(Debug)]
pub enum LinkError {
    Io { from: String, to: String, source: String },
    Access { path: String, source: String },
    ConflictingEntry { path: String },
}

/// An entry that was left where it was, and why.
#[derive(Debug)]
pub struct Unowned {
    pub path: String,
    pub reason: UnownedReason,
}

/// What an [`Unowned`] means.
pub struct UnownedModel {
    pub path: Seq<char>,
    pub reason: UnownedReason,
}

impl DeepView for Unowned {
    type V = UnownedModel;

    open spec fn deep_view(&self) -> UnownedModel {
        UnownedModel { path: self.path@, reason: self.reason }
    }
}

/// Why an entry was left where it was.
#[derive(Debug, Clone, Copy, PartialEq, Eq, Structural)]
pub enum UnownedReason {
    /// A real directory or file. Only links are ever written here.
    NotASymlink,
    /// A link to neither the virtual store nor a member.
    PointsOutside,
}

/// A link, and what it points at.
#[derive(Debug)]
pub struct Link {
    pub path: String,
    pub target: String,
}

/// What a [`Link`] means.
pub struct LinkModel {
    pub path: Seq<char>,
    pub target: Seq<char>,
}

impl DeepView for Link {
    type V = LinkModel;

    open spec fn deep_view(&self) -> LinkModel {
        LinkModel { path: self.path@, target: self.target@ }
    }
}

/// How one step of a path is spelled.
pub open spec fn step_text(step: Step) -> Seq<char> {
    match step {
        Step::Root => seq!['/'],
        Step::Current => seq!['.'],
        Step::Parent => seq!['.', '.'],
        Step::Normal(name) => name,
    }
}

/// How far two runs of steps go together.
pub open spec fn together(a: Seq<Step>, b: Seq<Step>) -> nat
    decreases a.len(),
{
    if a.len() == 0 || b.len() == 0 || a[0] != b[0] {
        0
    } else {
        1 + together(a.drop_first(), b.drop_first())
    }
}

/// How to get from one directory to another: up out of what they do not
/// share, and down from there.
pub open spec fn way_between(from: Seq<Step>, to: Seq<Step>) -> Seq<Step> {
    let k = together(from, to) as int;
    Seq::new((from.len() - k) as nat, |i: int| Step::Parent) + to.skip(k)
}

/// The relative path from one directory to another.
pub open spec fn path_from(from: Seq<char>, to: Seq<char>) -> Seq<char> {
    joined(way_between(steps(from), steps(to)).map_values(|step: Step| step_text(step)), '/')
}

fn same_step(a: &Component, b: &Component) -> (equal: bool)
    ensures
        equal == (a.deep_view() == b.deep_view()),
{
    match (a, b) {
        (Component::Root, Component::Root) => true,
        (Component::Current, Component::Current) => true,
        (Component::Parent, Component::Parent) => true,
        (Component::Normal(left), Component::Normal(right)) => same(left.as_str(), right.as_str()),
        _ => false,
    }
}

/// How one step of a path is spelled.
pub fn spell_step(step: &Component) -> (text: String)
    ensures
        text@ == step_text(step.deep_view()),
{
    proof {
        reveal_strlit("/");
        reveal_strlit(".");
        reveal_strlit("..");
        assert("/"@ =~= seq!['/']);
        assert("."@ =~= seq!['.']);
        assert(".."@ =~= seq!['.', '.']);
    }
    match step {
        Component::Root => "/".to_owned(),
        Component::Current => ".".to_owned(),
        Component::Parent => "..".to_owned(),
        Component::Normal(name) => name.clone(),
    }
}

/// The relative path from the directory `from` to `to`. The only place that
/// writes a climb, so that every one falls out of where two paths diverge.
pub fn relative_path(from: &str, to: &str) -> (path: String)
    ensures
        path@ == path_from(from@, to@),
{
    let a = components(from);
    let b = components(to);
    let ghost sa = steps(from@);
    let ghost sb = steps(to@);
    let mut k: usize = 0;
    assert(sa.skip(0) =~= sa);
    assert(sb.skip(0) =~= sb);
    while k < a.len() && k < b.len() && same_step(&a[k], &b[k])
        invariant
            k <= a@.len(),
            k <= b@.len(),
            sa == a.deep_view(),
            sb == b.deep_view(),
            together(sa, sb) == k + together(sa.skip(k as int), sb.skip(k as int)),
        decreases a.len() - k,
    {
        let ghost ra = sa.skip(k as int);
        let ghost rb = sb.skip(k as int);
        assert(ra[0] == sa[k as int] && rb[0] == sb[k as int]);
        assert(sa[k as int] == a@[k as int].deep_view());
        assert(sb[k as int] == b@[k as int].deep_view());
        assert(ra.drop_first() =~= sa.skip(k + 1));
        assert(rb.drop_first() =~= sb.skip(k + 1));
        k = k + 1;
    }
    assert(together(sa, sb) == k) by {
        if k < sa.len() && k < sb.len() {
            assert(sa.skip(k as int)[0] == a@[k as int].deep_view());
            assert(sb.skip(k as int)[0] == b@[k as int].deep_view());
        }
    }
    let ghost goal = way_between(sa, sb).map_values(|step: Step| step_text(step));
    let mut parts: Vec<String> = Vec::new();
    let mut i: usize = k;
    proof {
        reveal_strlit("..");
        assert(".."@ =~= seq!['.', '.']);
    }
    while i < a.len()
        invariant
            k <= i <= a@.len(),
            parts@.len() == i - k,
            ".."@ == seq!['.', '.'],
            forall|j: int| 0 <= j < parts@.len() ==> (#[trigger] parts@[j])@ == seq!['.', '.'],
        decreases a.len() - i,
    {
        parts.push("..".to_owned());
        i = i + 1;
    }
    let ghost up = parts@.len();
    let mut j: usize = k;
    while j < b.len()
        invariant
            k <= j <= b@.len(),
            sb == b.deep_view(),
            up == a@.len() - k,
            parts@.len() == up + j - k,
            forall|p: int| 0 <= p < up ==> (#[trigger] parts@[p])@ == seq!['.', '.'],
            forall|p: int|
                up <= p < parts@.len() ==> (#[trigger] parts@[p])@ == step_text(sb[k + p - up]),
        decreases b.len() - j,
    {
        assert(sb[j as int] == b@[j as int].deep_view());
        parts.push(spell_step(&b[j]));
        j = j + 1;
    }
    assert(parts.deep_view() =~= goal);
    join_all(&parts, '/')
}

/// Steps with `.` and `..` resolved away, without touching the filesystem. A
/// climb is only taken where there is a plain name to climb out of.
pub open spec fn resolved(taken: Seq<Step>) -> Seq<Step>
    decreases taken.len(),
{
    if taken.len() == 0 {
        seq![]
    } else {
        let before = resolved(taken.drop_last());
        match taken.last() {
            Step::Current => before,
            Step::Parent => if before.len() > 0 && before.last() is Normal {
                before.drop_last()
            } else {
                before.push(Step::Parent)
            },
            other => before.push(other),
        }
    }
}

/// Resolve `.` and `..` away.
pub fn normalize(path: &str) -> (normalized: Vec<Component>)
    ensures
        normalized.deep_view() == resolved(steps(path@)),
{
    let found = components(path);
    let ghost taken = steps(path@);
    let mut normalized: Vec<Component> = Vec::new();
    assert(normalized.deep_view() =~= seq![]);
    let mut i: usize = 0;
    while i < found.len()
        invariant
            i <= found@.len(),
            taken == found.deep_view(),
            normalized.deep_view() == resolved(taken.take(i as int)),
        decreases found.len() - i,
    {
        let ghost before = normalized.deep_view();
        assert(taken.take(i + 1).drop_last() =~= taken.take(i as int));
        assert(taken.take(i + 1).last() == found@[i as int].deep_view());
        match &found[i] {
            Component::Current => {},
            Component::Parent => {
                let n: usize = normalized.len();
                let climb = n > 0 && matches!(&normalized[n - 1], Component::Normal(_));
                assert(n > 0 ==> before.last() == normalized@[n - 1].deep_view());
                if climb {
                    normalized.pop();
                    assert(normalized.deep_view() =~= before.drop_last());
                } else {
                    normalized.push(Component::Parent);
                    assert(normalized.deep_view() =~= before.push(Step::Parent));
                }
            },
            Component::Root => {
                normalized.push(Component::Root);
                assert(normalized.deep_view() =~= before.push(Step::Root));
            },
            Component::Normal(name) => {
                normalized.push(Component::Normal(name.clone()));
                assert(normalized.deep_view() =~= before.push(Step::Normal(name@)));
            },
        }
        i = i + 1;
    }
    assert(taken.take(taken.len() as int) =~= taken);
    normalized
}

/// Does one run of steps start with another?
pub open spec fn starts_with(taken: Seq<Step>, prefix: Seq<Step>) -> bool {
    taken.len() >= prefix.len() && taken.take(prefix.len() as int) == prefix
}

/// Does one run of steps start with another?
pub fn begins(taken: &Vec<Component>, prefix: &Vec<Component>) -> (yes: bool)
    ensures
        yes == starts_with(taken.deep_view(), prefix.deep_view()),
{
    if taken.len() < prefix.len() {
        return false;
    }
    let mut i: usize = 0;
    while i < prefix.len()
        invariant
            i <= prefix@.len() <= taken@.len(),
            forall|j: int| 0 <= j < i ==> taken.deep_view()[j] == prefix.deep_view()[j],
        decreases prefix.len() - i,
    {
        assert(taken.deep_view()[i as int] == taken@[i as int].deep_view());
        assert(prefix.deep_view()[i as int] == prefix@[i as int].deep_view());
        if !same_step(&taken[i], &prefix[i]) {
            assert(taken.deep_view().take(prefix@.len() as int)[i as int] != prefix.deep_view()[i as int]);
            return false;
        }
        i = i + 1;
    }
    assert(taken.deep_view().take(prefix@.len() as int) =~= prefix.deep_view());
    true
}

/// What is found at a place.
#[derive(Debug)]
pub enum Found {
    /// A link, with what it points at.
    Link(String),
    /// A directory in its own right.
    Directory,
    /// Anything else.
    File,
}

/// What a [`Found`] means.
pub enum FoundModel {
    Link(Seq<char>),
    Directory,
    File,
}

impl DeepView for Found {
    type V = FoundModel;

    open spec fn deep_view(&self) -> FoundModel {
        match self {
            Found::Link(target) => FoundModel::Link(target@),
            Found::Directory => FoundModel::Directory,
            Found::File => FoundModel::File,
        }
    }
}

/// Does a link lead where jerky's links lead: into the virtual store, or
/// exactly onto a member?
pub open spec fn leads_home(
    parent: Seq<char>,
    target: Seq<char>,
    virtual_store: Seq<char>,
    members: Set<Seq<char>>,
) -> bool {
    let place = resolved(steps(put_after(parent, target)));
    ||| starts_with(place, steps(virtual_store))
    ||| exists|member: Seq<char>| #[trigger] members.contains(member) && steps(member) == place
}

/// Why an entry is not jerky's to remove, if it is not.
pub open spec fn unowned_reason(
    found: FoundModel,
    parent: Seq<char>,
    virtual_store: Seq<char>,
    members: Set<Seq<char>>,
) -> Option<UnownedReason> {
    match found {
        FoundModel::Link(target) => if leads_home(parent, target, virtual_store, members) {
            None
        } else {
            Some(UnownedReason::PointsOutside)
        },
        _ => Some(UnownedReason::NotASymlink),
    }
}

/// Can jerky prove that it wrote this entry? Nothing, if it can, and the
/// reason to report if it cannot.
///
/// The test is on where a link points and not on whether anything is there: a
/// link to a package that was since removed is still jerky's.
pub fn ownership(
    found: &Found,
    parent: &str,
    virtual_store: &str,
    members: &SortedSet<String>,
) -> (reason: Option<UnownedReason>)
    ensures
        reason == unowned_reason(
            found.deep_view(),
            parent@,
            virtual_store@,
            members.deep_view(),
        ),
{
    let target = match found {
        Found::Link(target) => target,
        _ => {
            return Some(UnownedReason::NotASymlink);
        },
    };
    let place = normalize(join(parent, target.as_str()).as_str());
    let store = components(virtual_store);
    if begins(&place, &store) {
        return None;
    }
    let n: usize = members.len();
    let ghost names = members.keys();
    let mut i: usize = 0;
    while i < n
        invariant
            i <= n == names.len(),
            names == members.keys(),
            members.deep_view() == names.to_set(),
            place.deep_view() == resolved(steps(put_after(parent@, target@))),
            store.deep_view() == steps(virtual_store@),
            !starts_with(place.deep_view(), store.deep_view()),
            found.deep_view() == FoundModel::Link(target@),
            forall|j: int| 0 <= j < i ==> steps(#[trigger] names[j]) != place.deep_view(),
        decreases n - i,
    {
        let member = members.key_at(i);
        let taken = components(member.as_str());
        let equal = taken.len() == place.len() && begins(&place, &taken);
        proof {
            if equal {
                assert(place.deep_view().take(taken@.len() as int) =~= place.deep_view());
            }
            if taken.deep_view() == place.deep_view() {
                assert(taken.deep_view().len() == taken@.len());
                assert(place.deep_view().len() == place@.len());
                assert(place.deep_view().take(taken@.len() as int) =~= place.deep_view());
            }
        }
        if equal {
            assert(members.deep_view().contains(member@) && steps(member@) == place.deep_view());
            return None;
        }
        i = i + 1;
    }
    proof {
        assert forall|member: Seq<char>| #[trigger] members.deep_view().contains(
            member,
        ) implies steps(member) != place.deep_view() by {
            assert(names.to_set().contains(member));
            let j = names.index_of(member);
            assert(steps(names[j]) != place.deep_view());
        }
    }
    Some(UnownedReason::PointsOutside)
}

/// Where the virtual store of a workspace is.
pub open spec fn store_place(workspace_root: Seq<char>) -> Seq<char> {
    put_after(put_after(workspace_root, "node_modules"@), VIRTUAL_STORE_DIR@)
}

/// Where the virtual store of a workspace is.
pub fn virtual_store(workspace_root: &str) -> (path: String)
    ensures
        path@ == store_place(workspace_root@),
{
    join(join(workspace_root, "node_modules").as_str(), VIRTUAL_STORE_DIR)
}

/// Where a package sits inside its entry of the virtual store.
pub open spec fn package_place(
    store: Seq<char>,
    dir_name: Seq<char>,
    pkg_name: Seq<char>,
) -> Seq<char> {
    put_after(put_after(put_after(store, dir_name), "node_modules"@), pkg_name)
}

/// The directory that a link of some name sits in: a scoped name is one level
/// further down, inside its scope.
pub open spec fn holder_of(link_dir: Seq<char>, pkg_name: Seq<char>) -> Seq<char> {
    match cut_last(pkg_name, '/') {
        Some((scope, _)) => put_after(link_dir, scope),
        None => link_dir,
    }
}

/// A link of a name inside a directory, at a place given relative to where the
/// link sits.
pub open spec fn link_of(link_dir: Seq<char>, pkg_name: Seq<char>, entry: Seq<char>) -> LinkModel {
    LinkModel {
        path: put_after(link_dir, pkg_name),
        target: path_from(holder_of(link_dir, pkg_name), entry),
    }
}

/// The link named `pkg_name` inside `link_dir` that points at `entry`.
pub fn link_at(link_dir: &str, pkg_name: &str, entry: &str) -> (link: Link)
    ensures
        link.deep_view() == link_of(link_dir@, pkg_name@, entry@),
{
    let target = match split_last(pkg_name, '/') {
        Some((scope, _)) => relative_path(join(link_dir, scope).as_str(), entry),
        None => relative_path(link_dir, entry),
    };
    Link { path: join(link_dir, pkg_name), target }
}

/// The link in a project's `node_modules` straight at a workspace member: a
/// member has no store entry, and edits to it are seen at once.
pub fn symlink_local(importer_dir: &str, pkg_name: &str, target_dir: &str) -> (link: Link)
    ensures
        link.deep_view() == link_of(
            put_after(importer_dir@, "node_modules"@),
            pkg_name@,
            target_dir@,
        ),
{
    link_at(join(importer_dir, "node_modules").as_str(), pkg_name, target_dir)
}

/// The link from one store entry's `node_modules` at another entry. It climbs
/// out and back down inside the store, so that a package sees exactly the
/// dependencies it declared.
///
/// `link_name` is the name the depending package uses, and `pkg_name` the
/// name of the package, which an alias makes two.
pub fn symlink_into_store(
    store: &str,
    owner_dir: &str,
    link_name: &str,
    dir_name: &str,
    pkg_name: &str,
) -> (link: Link)
    ensures
        link.deep_view() == link_of(
            put_after(put_after(store@, owner_dir@), "node_modules"@),
            link_name@,
            package_place(store@, dir_name@, pkg_name@),
        ),
{
    let link_dir = join(join(store, owner_dir).as_str(), "node_modules");
    let entry = join(
        join(join(store, dir_name).as_str(), "node_modules").as_str(),
        pkg_name,
    );
    link_at(link_dir.as_str(), link_name, entry.as_str())
}

/// The link in a project's `node_modules` at a package in the virtual store of
/// the workspace root.
pub fn symlink_dependency_from(
    importer_dir: &str,
    workspace_root: &str,
    link_name: &str,
    dir_name: &str,
    pkg_name: &str,
) -> (link: Link)
    ensures
        link.deep_view() == link_of(
            put_after(importer_dir@, "node_modules"@),
            link_name@,
            package_place(store_place(workspace_root@), dir_name@, pkg_name@),
        ),
{
    let store = virtual_store(workspace_root);
    let entry = join(
        join(join(store.as_str(), dir_name).as_str(), "node_modules").as_str(),
        pkg_name,
    );
    link_at(join(importer_dir, "node_modules").as_str(), link_name, entry.as_str())
}

/// What to do about what is at the place of a link.
#[derive(Debug, Clone, Copy, PartialEq, Eq, Structural)]
pub enum Placing {
    /// Nothing is there: create the link.
    Create,
    /// A link is there, if only a dangling one: remove it first.
    Replace,
}

/// What to do about what is at the place of a link. Nothing but a link is
/// ever replaced.
pub fn place_symlink(path: &str, found: &Option<Found>) -> (placing: Result<Placing, LinkError>)
    ensures
        match found.deep_view() {
            None => placing == Ok::<Placing, LinkError>(Placing::Create),
            Some(FoundModel::Link(_)) => placing == Ok::<Placing, LinkError>(Placing::Replace),
            Some(_) => match placing {
                Err(LinkError::ConflictingEntry { path: at }) => at@ == path@,
                _ => false,
            },
        },
{
    match found {
        None => Ok(Placing::Create),
        Some(Found::Link(_)) => Ok(Placing::Replace),
        Some(_) => Err(LinkError::ConflictingEntry { path: path.to_owned() }),
    }
}

/// What making an entry of the virtual store takes.
#[derive(Debug)]
pub enum Populate {
    /// It is there already, at this place.
    Present(String),
    /// It has to be built in a directory of its own, with the package at
    /// `package` inside it, and renamed to `target` when it is whole.
    Build { package: String, target: String },
}

/// Where a package sits inside the directory of its entry. The second
/// `node_modules` is what makes a package see its declared dependencies as
/// siblings, and nothing else.
pub open spec fn package_inside(pkg_name: Seq<char>) -> Seq<char> {
    put_after("node_modules"@, pkg_name)
}

/// What making an entry of the virtual store takes. One that is there is left
/// as it is, and one that is not is never seen half-made.
pub fn populate_virtual_store(
    node_modules: &str,
    dir_name: &str,
    pkg_name: &str,
    present: bool,
) -> (populate: Populate)
    ensures
        match populate {
            Populate::Present(at) => present && at@ == put_after(
                put_after(node_modules@, VIRTUAL_STORE_DIR@),
                dir_name@,
            ),
            Populate::Build { package, target } => {
                &&& !present
                &&& package@ == package_inside(pkg_name@)
                &&& target@ == put_after(put_after(node_modules@, VIRTUAL_STORE_DIR@), dir_name@)
            },
        },
{
    let target = join(join(node_modules, VIRTUAL_STORE_DIR).as_str(), dir_name);
    if present {
        Populate::Present(target)
    } else {
        Populate::Build { package: join("node_modules", pkg_name), target }
    }
}

/// Whether an entry that was built is in its place: nothing kept it from being
/// renamed there, or another writer got there first.
pub fn populated(staged: &str, target: &str, failure: Option<String>, present: bool) -> (outcome:
    Result<String, LinkError>)
    ensures
        match outcome {
            Ok(at) => (failure is None || present) && at@ == target@,
            Err(LinkError::Io { from, to, source }) => {
                &&& failure is Some && source@ == (failure->0)@
                &&& !present
                &&& from@ == staged@
                &&& to@ == target@
            },
            Err(_) => false,
        },
{
    match failure {
        Some(source) if !present => Err(
            LinkError::Io { from: staged.to_owned(), to: target.to_owned(), source },
        ),
        _ => Ok(target.to_owned()),
    }
}

/// One thing found below a directory, by its path relative to it.
#[derive(Debug)]
pub struct TreeEntry {
    pub relative: String,
    pub is_dir: bool,
}

/// How one thing of a tree is recreated.
#[derive(Debug, Clone, Copy, PartialEq, Eq, Structural)]
pub enum Recreate {
    /// Make a directory, with the mode of the other.
    Directory,
    /// Link a file. The two then share their contents.
    Link,
    /// Copy a file.
    Copy,
}

/// One thing to do to recreate a tree.
#[derive(Debug)]
pub struct TreeOp {
    pub from: String,
    pub to: String,
    pub how: Recreate,
}

/// What a [`TreeOp`] means.
pub struct TreeOpModel {
    pub from: Seq<char>,
    pub to: Seq<char>,
    pub how: Recreate,
}

impl DeepView for TreeOp {
    type V = TreeOpModel;

    open spec fn deep_view(&self) -> TreeOpModel {
        TreeOpModel { from: self.from@, to: self.to@, how: self.how }
    }
}

/// What recreates one thing of a tree.
pub open spec fn tree_op(
    src: Seq<char>,
    dst: Seq<char>,
    entry: TreeEntry,
    how: Recreate,
) -> TreeOpModel {
    TreeOpModel {
        from: put_after(src, entry.relative@),
        to: put_after(dst, entry.relative@),
        how: if entry.is_dir {
            Recreate::Directory
        } else {
            how
        },
    }
}

/// What recreates a tree elsewhere: its own directory first, and then each
/// thing in it, as it was met.
pub open spec fn tree_ops(
    src: Seq<char>,
    dst: Seq<char>,
    listing: Seq<TreeEntry>,
    how: Recreate,
) -> Seq<TreeOpModel> {
    seq![(TreeOpModel { from: src, to: dst, how: Recreate::Directory })] + Seq::new(
        listing.len(),
        |i: int| tree_op(src, dst, listing[i], how),
    )
}

fn walk_tree(src: &str, dst: &str, listing: &Vec<TreeEntry>, how: Recreate) -> (ops: Vec<TreeOp>)
    ensures
        ops.deep_view() == tree_ops(src@, dst@, listing@, how),
{
    let mut ops: Vec<TreeOp> = Vec::new();
    ops.push(TreeOp { from: src.to_owned(), to: dst.to_owned(), how: Recreate::Directory });
    let ghost goal = tree_ops(src@, dst@, listing@, how);
    let mut i: usize = 0;
    while i < listing.len()
        invariant
            i <= listing@.len(),
            goal == tree_ops(src@, dst@, listing@, how),
            ops@.len() == i + 1,
            forall|k: int| 0 <= k < ops@.len() ==> (#[trigger] ops@[k]).deep_view() == goal[k],
        decreases listing.len() - i,
    {
        let entry = &listing[i];
        let op = TreeOp {
            from: join(src, entry.relative.as_str()),
            to: join(dst, entry.relative.as_str()),
            how: if entry.is_dir {
                Recreate::Directory
            } else {
                how
            },
        };
        assert(op.deep_view() == tree_op(src@, dst@, listing@[i as int], how));
        assert(goal[i + 1] == tree_op(src@, dst@, listing@[i as int], how));
        ops.push(op);
        i = i + 1;
    }
    assert(ops.deep_view() =~= goal);
    ops
}

/// What recreates a tree elsewhere by linking every file of it. Directories
/// cannot be hard-linked, so they are made.
pub fn hard_link_tree(src: &str, dst: &str, listing: &Vec<TreeEntry>) -> (ops: Vec<TreeOp>)
    ensures
        ops.deep_view() == tree_ops(src@, dst@, listing@, Recreate::Link),
{
    walk_tree(src, dst, listing, Recreate::Link)
}

/// What recreates a tree elsewhere by copying every file of it.
pub fn copy_tree(src: &str, dst: &str, listing: &Vec<TreeEntry>) -> (ops: Vec<TreeOp>)
    ensures
        ops.deep_view() == tree_ops(src@, dst@, listing@, Recreate::Copy),
{
    walk_tree(src, dst, listing, Recreate::Copy)
}

/// What came of linking a file.
#[derive(Debug)]
pub enum HardLink {
    Linked,
    /// The two places are on different devices.
    CrossDevice,
    /// It failed, and why.
    Failed(String),
}

/// What is left to do after linking a file: nothing, or to copy it. Only where
/// the two places are on different devices is it copied instead, and any other
/// failure is one.
pub fn link_file(src: &str, dst: &str, outcome: HardLink) -> (copy: Result<bool, LinkError>)
    ensures
        match outcome {
            HardLink::Linked => copy == Ok::<bool, LinkError>(false),
            HardLink::CrossDevice => copy == Ok::<bool, LinkError>(true),
            HardLink::Failed(reason) => match copy {
                Err(LinkError::Io { from, to, source }) => from@ == src@ && to@ == dst@ && source@
                    == reason@,
                _ => false,
            },
        },
{
    match outcome {
        HardLink::Linked => Ok(false),
        HardLink::CrossDevice => Ok(true),
        HardLink::Failed(source) => Err(
            LinkError::Io { from: src.to_owned(), to: dst.to_owned(), source },
        ),
    }
}

/// What is in a directory: what each name is, and for each scope that is a
/// real directory, what is in that.
#[derive(Debug)]
pub struct Listing {
    pub entries: SortedMap<String, Found>,
    pub scopes: SortedMap<String, SortedMap<String, Found>>,
}

/// What a [`Listing`] means.
pub struct ListingModel {
    pub entries: Map<Seq<char>, FoundModel>,
    pub scopes: Map<Seq<char>, Map<Seq<char>, FoundModel>>,
}

impl DeepView for Listing {
    type V = ListingModel;

    open spec fn deep_view(&self) -> ListingModel {
        ListingModel { entries: self.entries.deep_view(), scopes: self.scopes.deep_view() }
    }
}

/// What is in a scope.
pub open spec fn scope_in(listing: ListingModel, name: Seq<char>) -> Map<Seq<char>, FoundModel> {
    if listing.scopes.contains_key(name) {
        listing.scopes[name]
    } else {
        Map::empty()
    }
}

/// Is an entry a scope to look into: named like one, and a directory in its
/// own right? A link of such a name is an ordinary entry.
pub open spec fn is_scope(listing: ListingModel, name: Seq<char>) -> bool {
    name.len() > 0 && name[0] == '@' && listing.entries[name] is Directory
}

/// What is to be done to a directory.
#[derive(Debug)]
pub struct Converged {
    /// What to remove, in order.
    pub remove: Vec<String>,
    /// Emptied directories to remove after that.
    pub remove_dirs: Vec<String>,
    /// What was left where it was, and why.
    pub left_alone: Vec<Unowned>,
}

/// What a [`Converged`] means.
pub struct ConvergedModel {
    pub remove: Seq<Seq<char>>,
    pub remove_dirs: Seq<Seq<char>>,
    pub left_alone: Seq<UnownedModel>,
}

impl DeepView for Converged {
    type V = ConvergedModel;

    open spec fn deep_view(&self) -> ConvergedModel {
        ConvergedModel {
            remove: self.remove.deep_view(),
            remove_dirs: self.remove_dirs.deep_view(),
            left_alone: self.left_alone.deep_view(),
        }
    }
}

/// What it takes to know whether an entry stays.
pub struct Ground {
    pub virtual_store: Seq<char>,
    pub members: Set<Seq<char>>,
    pub expected: Set<Seq<char>>,
}

/// Is an entry to be removed: not expected, and provably jerky's?
pub open spec fn is_debris(
    ground: Ground,
    name: Seq<char>,
    found: FoundModel,
    parent: Seq<char>,
) -> bool {
    !ground.expected.contains(name) && unowned_reason(
        found,
        parent,
        ground.virtual_store,
        ground.members,
    ) is None
}

/// One entry decided. One that is expected is not asked about, one that is
/// jerky's is removed, and anything else is left and reported.
pub open spec fn decided(
    ground: Ground,
    name: Seq<char>,
    found: FoundModel,
    parent: Seq<char>,
    path: Seq<char>,
    before: ConvergedModel,
) -> ConvergedModel {
    if ground.expected.contains(name) {
        before
    } else {
        match unowned_reason(found, parent, ground.virtual_store, ground.members) {
            None => ConvergedModel { remove: before.remove.push(path), ..before },
            Some(reason) => ConvergedModel {
                left_alone: before.left_alone.push(UnownedModel { path, reason }),
                ..before
            },
        }
    }
}

/// Some entries of a scope decided, in order.
pub open spec fn scope_decided(
    ground: Ground,
    scope: Seq<char>,
    children: Map<Seq<char>, FoundModel>,
    names: Seq<Seq<char>>,
    parent: Seq<char>,
    before: ConvergedModel,
) -> ConvergedModel
    decreases names.len(),
{
    if names.len() == 0 {
        before
    } else {
        let so_far = scope_decided(ground, scope, children, names.drop_last(), parent, before);
        let child = names.last();
        decided(
            ground,
            scope + "/"@ + child,
            children[child],
            parent,
            put_after(parent, child),
            so_far,
        )
    }
}

/// Is a scope emptied: was there something in it, and is all of it removed?
pub open spec fn is_emptied(
    ground: Ground,
    scope: Seq<char>,
    children: Map<Seq<char>, FoundModel>,
    parent: Seq<char>,
) -> bool {
    &&& exists|child: Seq<char>| children.contains_key(child)
    &&& forall|child: Seq<char>| #[trigger]
        children.contains_key(child) ==> is_debris(
            ground,
            scope + "/"@ + child,
            children[child],
            parent,
        )
}

/// Some entries of a `node_modules` decided, in order. The virtual store is
/// passed over. A scope is looked into, and removed only if it was emptied
/// just now: one that was empty before is someone else's.
pub open spec fn converged(
    ground: Ground,
    listing: ListingModel,
    names: Seq<Seq<char>>,
    node_modules: Seq<char>,
) -> ConvergedModel
    decreases names.len(),
{
    if names.len() == 0 {
        ConvergedModel { remove: seq![], remove_dirs: seq![], left_alone: seq![] }
    } else {
        let before = converged(ground, listing, names.drop_last(), node_modules);
        let name = names.last();
        let path = put_after(node_modules, name);
        if name == VIRTUAL_STORE_DIR@ {
            before
        } else if is_scope(listing, name) {
            let children = scope_in(listing, name);
            let after = scope_decided(
                ground,
                name,
                children,
                in_order::<String>(children.dom()),
                path,
                before,
            );
            if is_emptied(ground, name, children, path) {
                ConvergedModel { remove_dirs: after.remove_dirs.push(path), ..after }
            } else {
                after
            }
        } else {
            decided(ground, name, listing.entries[name], node_modules, path, before)
        }
    }
}

/// Decide one entry, reporting whether it is removed.
fn converge_entry(
    path: String,
    name: &str,
    found: &Found,
    parent: &str,
    store: &str,
    members: &SortedSet<String>,
    expected: &SortedSet<String>,
    outcome: &mut Converged,
) -> (removed: bool)
    ensures
        ({
            let ground = Ground {
                virtual_store: store@,
                members: members.deep_view(),
                expected: expected.deep_view(),
            };
            &&& final(outcome).deep_view() == decided(
                ground,
                name@,
                found.deep_view(),
                parent@,
                path@,
                old(outcome).deep_view(),
            )
            &&& removed == is_debris(ground, name@, found.deep_view(), parent@)
        }),
{
    if expected.has(name) {
        return false;
    }
    let ghost at = path@;
    let ghost before = old(outcome).deep_view();
    match ownership(found, parent, store, members) {
        None => {
            outcome.remove.push(path);
            assert(outcome.remove.deep_view() =~= before.remove.push(at));
            true
        },
        Some(reason) => {
            let entry = Unowned { path, reason };
            outcome.left_alone.push(entry);
            assert(outcome.left_alone.deep_view() =~= before.left_alone.push(
                UnownedModel { path: at, reason },
            ));
            false
        },
    }
}

/// Decide what is in a scope, reporting whether that empties it.
fn converge_scope(
    scope: &str,
    children: &SortedMap<String, Found>,
    parent: &str,
    store: &str,
    members: &SortedSet<String>,
    expected: &SortedSet<String>,
    outcome: &mut Converged,
) -> (emptied: bool)
    ensures
        ({
            let ground = Ground {
                virtual_store: store@,
                members: members.deep_view(),
                expected: expected.deep_view(),
            };
            &&& final(outcome).deep_view() == scope_decided(
                ground,
                scope@,
                children.deep_view(),
                in_order::<String>(children.deep_view().dom()),
                parent@,
                old(outcome).deep_view(),
            )
            &&& emptied == is_emptied(ground, scope@, children.deep_view(), parent@)
        }),
{
    let ghost ground = Ground {
        virtual_store: store@,
        members: members.deep_view(),
        expected: expected.deep_view(),
    };
    let ghost kids = children.deep_view();
    let ghost before = outcome.deep_view();
    let n: usize = children.len();
    let ghost names = children.keys();
    let mut all_removed = true;
    let mut i: usize = 0;
    while i < n
        invariant
            i <= n == names.len(),
            names == children.keys(),
            kids == children.deep_view(),
            ground == (Ground {
                virtual_store: store@,
                members: members.deep_view(),
                expected: expected.deep_view(),
            }),
            outcome.deep_view() == scope_decided(
                ground,
                scope@,
                kids,
                names.take(i as int),
                parent@,
                before,
            ),
            all_removed == (forall|j: int|
                0 <= j < i ==> is_debris(
                    ground,
                    scope@ + "/"@ + #[trigger] names[j],
                    kids[names[j]],
                    parent@,
                )),
        decreases n - i,
    {
        let child = children.key_at(i);
        let mut full = scope.to_owned();
        full.append("/");
        full.append(child.as_str());
        assert(names.take(i + 1).drop_last() =~= names.take(i as int));
        assert(names.take(i + 1).last() == names[i as int]);
        let removed = converge_entry(
            join(parent, child.as_str()),
            full.as_str(),
            children.value_at(i),
            parent,
            store,
            members,
            expected,
            outcome,
        );
        if !removed {
            assert(!is_debris(
                ground,
                scope@ + "/"@ + names[i as int],
                kids[names[i as int]],
                parent@,
            ));
            all_removed = false;
        }
        i = i + 1;
    }
    assert(names.take(n as int) =~= names);
    let emptied = n > 0 && all_removed;
    proof {
        if emptied {
            assert(names.to_set().contains(names[0]));
            assert(kids.contains_key(names[0]));
            assert forall|child: Seq<char>| #[trigger] kids.contains_key(child) implies is_debris(
                ground,
                scope@ + "/"@ + child,
                kids[child],
                parent@,
            ) by {
                assert(names.to_set().contains(child));
                let j = names.index_of(child);
                assert(names[j] == child);
            }
        } else if n > 0 {
            let j = choose|j: int|
                0 <= j < n && !is_debris(
                    ground,
                    scope@ + "/"@ + #[trigger] names[j],
                    kids[names[j]],
                    parent@,
                );
            assert(names.to_set().contains(names[j]));
            assert(kids.contains_key(names[j]));
        } else {
            assert forall|child: Seq<char>| !kids.contains_key(child) by {
                if kids.contains_key(child) {
                    assert(names.to_set().contains(child));
                }
            }
        }
    }
    emptied
}

/// What to remove from a project's `node_modules` so that it holds only what
/// is expected, and what to leave alone.
///
/// This is what makes an install convergent rather than additive: a dependency
/// that is no longer declared loses its link. Only what jerky provably wrote
/// is ever removed.
pub fn converge(
    importer_dir: &str,
    workspace_root: &str,
    members: &SortedSet<String>,
    expected: &SortedSet<String>,
    listing: &Listing,
) -> (outcome: Converged)
    ensures
        outcome.deep_view() == converged(
            (Ground {
                virtual_store: store_place(workspace_root@),
                members: members.deep_view(),
                expected: expected.deep_view(),
            }),
            listing.deep_view(),
            in_order::<String>(listing.entries.deep_view().dom()),
            put_after(importer_dir@, "node_modules"@),
        ),
{
    let node_modules = join(importer_dir, "node_modules");
    let store = virtual_store(workspace_root);
    let ghost ground = Ground {
        virtual_store: store@,
        members: members.deep_view(),
        expected: expected.deep_view(),
    };
    let ghost model = listing.deep_view();
    let none: SortedMap<String, Found> = SortedMap::new();
    let mut outcome = Converged {
        remove: Vec::new(),
        remove_dirs: Vec::new(),
        left_alone: Vec::new(),
    };
    assert(outcome.deep_view().remove =~= seq![]);
    assert(outcome.deep_view().remove_dirs =~= seq![]);
    assert(outcome.deep_view().left_alone =~= seq![]);
    let n: usize = listing.entries.len();
    let ghost names = listing.entries.keys();
    let mut i: usize = 0;
    while i < n
        invariant
            i <= n == names.len(),
            names == listing.entries.keys(),
            model == listing.deep_view(),
            none.deep_view() == Map::<Seq<char>, FoundModel>::empty(),
            ground == (Ground {
                virtual_store: store@,
                members: members.deep_view(),
                expected: expected.deep_view(),
            }),
            outcome.deep_view() == converged(
                ground,
                model,
                names.take(i as int),
                node_modules@,
            ),
        decreases n - i,
    {
        let name = listing.entries.key_at(i);
        let found = listing.entries.value_at(i);
        assert(names.take(i + 1).drop_last() =~= names.take(i as int));
        assert(names.take(i + 1).last() == name@);
        let path = join(node_modules.as_str(), name.as_str());
        if !same(name.as_str(), VIRTUAL_STORE_DIR) {
            let named = !name.as_str().is_empty() && name.as_str().get_char(0) == '@';
            let scope = named && matches!(found, Found::Directory);
            assert(scope == is_scope(model, name@));
            if scope {
                let children = match listing.scopes.get(name) {
                    Some(children) => children,
                    None => &none,
                };
                assert(children.deep_view() == scope_in(model, name@));
                let emptied = converge_scope(
                    name.as_str(),
                    children,
                    path.as_str(),
                    store.as_str(),
                    members,
                    expected,
                    &mut outcome,
                );
                if emptied {
                    let ghost held = outcome.deep_view();
                    let ghost at = path@;
                    outcome.remove_dirs.push(path);
                    assert(outcome.remove_dirs.deep_view() =~= held.remove_dirs.push(at));
                }
            } else {
                converge_entry(
                    path,
                    name.as_str(),
                    found,
                    node_modules.as_str(),
                    store.as_str(),
                    members,
                    expected,
                    &mut outcome,
                );
            }
        }
        i = i + 1;
    }
    assert(names.take(n as int) =~= names);
    outcome
}

/// What is to be removed from a virtual store.
pub struct PrunedModel {
    pub remove: Seq<Seq<char>>,
    pub remove_dirs: Seq<Seq<char>>,
}

/// Some entries of a scope of the virtual store pruned, in order.
pub open spec fn scope_pruned(
    expected: Set<Seq<char>>,
    scope: Seq<char>,
    names: Seq<Seq<char>>,
    parent: Seq<char>,
    before: Seq<Seq<char>>,
) -> Seq<Seq<char>>
    decreases names.len(),
{
    if names.len() == 0 {
        before
    } else {
        let so_far = scope_pruned(expected, scope, names.drop_last(), parent, before);
        if expected.contains(scope + "/"@ + names.last()) {
            so_far
        } else {
            so_far.push(put_after(parent, names.last()))
        }
    }
}

/// Some entries of a virtual store pruned, in order. Everything in it is
/// jerky's, so what is not expected goes, and so does a scope that is left
/// empty. Unfinished work is passed over.
pub open spec fn pruned(
    expected: Set<Seq<char>>,
    listing: ListingModel,
    names: Seq<Seq<char>>,
    store: Seq<char>,
) -> PrunedModel
    decreases names.len(),
{
    if names.len() == 0 {
        PrunedModel { remove: seq![], remove_dirs: seq![] }
    } else {
        let before = pruned(expected, listing, names.drop_last(), store);
        let name = names.last();
        let path = put_after(store, name);
        if name == STAGING_DIR@ {
            before
        } else if is_scope(listing, name) {
            let children = scope_in(listing, name);
            let remove = scope_pruned(
                expected,
                name,
                in_order::<String>(children.dom()),
                path,
                before.remove,
            );
            if forall|child: Seq<char>| #[trigger]
                children.contains_key(child) ==> !expected.contains(name + "/"@ + child) {
                PrunedModel { remove, remove_dirs: before.remove_dirs.push(path) }
            } else {
                PrunedModel { remove, ..before }
            }
        } else if expected.contains(name) {
            before
        } else {
            PrunedModel { remove: before.remove.push(path), ..before }
        }
    }
}

/// What to remove from a virtual store so that it holds only what is expected.
#[derive(Debug)]
pub struct Pruned {
    pub remove: Vec<String>,
    pub remove_dirs: Vec<String>,
}

impl DeepView for Pruned {
    type V = PrunedModel;

    open spec fn deep_view(&self) -> PrunedModel {
        PrunedModel { remove: self.remove.deep_view(), remove_dirs: self.remove_dirs.deep_view() }
    }
}

fn prune_scope(
    scope: &str,
    children: &SortedMap<String, Found>,
    parent: &str,
    expected: &SortedSet<String>,
    remove: &mut Vec<String>,
) -> (emptied: bool)
    ensures
        final(remove).deep_view() == scope_pruned(
            expected.deep_view(),
            scope@,
            in_order::<String>(children.deep_view().dom()),
            parent@,
            old(remove).deep_view(),
        ),
        emptied == (forall|child: Seq<char>| #[trigger]
            children.deep_view().contains_key(child) ==> !expected.deep_view().contains(
                scope@ + "/"@ + child,
            )),
{
    let ghost before = remove.deep_view();
    let ghost wanted = expected.deep_view();
    let n: usize = children.len();
    let ghost names = children.keys();
    let mut emptied = true;
    let mut i: usize = 0;
    while i < n
        invariant
            i <= n == names.len(),
            names == children.keys(),
            wanted == expected.deep_view(),
            remove.deep_view() == scope_pruned(
                wanted,
                scope@,
                names.take(i as int),
                parent@,
                before,
            ),
            emptied == (forall|j: int|
                0 <= j < i ==> !wanted.contains(scope@ + "/"@ + #[trigger] names[j])),
        decreases n - i,
    {
        let child = children.key_at(i);
        let mut full = scope.to_owned();
        full.append("/");
        full.append(child.as_str());
        assert(names.take(i + 1).drop_last() =~= names.take(i as int));
        assert(names.take(i + 1).last() == names[i as int]);
        if expected.contains(&full) {
            assert(wanted.contains(scope@ + "/"@ + names[i as int]));
            emptied = false;
        } else {
            let ghost held = remove.deep_view();
            let path = join(parent, child.as_str());
            let ghost at = path@;
            remove.push(path);
            assert(remove.deep_view() =~= held.push(at));
        }
        i = i + 1;
    }
    assert(names.take(n as int) =~= names);
    proof {
        if emptied {
            assert forall|child: Seq<char>| #[trigger] children.deep_view().contains_key(
                child,
            ) implies !wanted.contains(scope@ + "/"@ + child) by {
                assert(names.to_set().contains(child));
                let j = names.index_of(child);
                assert(names[j] == child);
            }
        } else {
            let j = choose|j: int|
                0 <= j < n && wanted.contains(scope@ + "/"@ + #[trigger] names[j]);
            assert(names.to_set().contains(names[j]));
            assert(children.deep_view().contains_key(names[j]));
        }
    }
    emptied
}

/// What to remove from the virtual store of a `node_modules`. A scope is
/// looked into: an entry of a scoped package is nested in it, and taking the
/// scope for an entry would remove live packages.
pub fn prune_virtual_store(
    node_modules: &str,
    expected: &SortedSet<String>,
    listing: &Listing,
) -> (outcome: Pruned)
    ensures
        outcome.deep_view() == pruned(
            expected.deep_view(),
            listing.deep_view(),
            in_order::<String>(listing.entries.deep_view().dom()),
            put_after(node_modules@, VIRTUAL_STORE_DIR@),
        ),
{
    let store = join(node_modules, VIRTUAL_STORE_DIR);
    let ghost wanted = expected.deep_view();
    let ghost model = listing.deep_view();
    let none: SortedMap<String, Found> = SortedMap::new();
    let mut outcome = Pruned { remove: Vec::new(), remove_dirs: Vec::new() };
    assert(outcome.deep_view().remove =~= seq![]);
    assert(outcome.deep_view().remove_dirs =~= seq![]);
    let n: usize = listing.entries.len();
    let ghost names = listing.entries.keys();
    let mut i: usize = 0;
    while i < n
        invariant
            i <= n == names.len(),
            names == listing.entries.keys(),
            wanted == expected.deep_view(),
            model == listing.deep_view(),
            none.deep_view() == Map::<Seq<char>, FoundModel>::empty(),
            outcome.deep_view() == pruned(wanted, model, names.take(i as int), store@),
        decreases n - i,
    {
        let name = listing.entries.key_at(i);
        let found = listing.entries.value_at(i);
        assert(names.take(i + 1).drop_last() =~= names.take(i as int));
        assert(names.take(i + 1).last() == name@);
        let path = join(store.as_str(), name.as_str());
        let ghost at = path@;
        let ghost held = outcome.deep_view();
        if !same(name.as_str(), STAGING_DIR) {
            let named = !name.as_str().is_empty() && name.as_str().get_char(0) == '@';
            let scope = named && matches!(found, Found::Directory);
            assert(scope == is_scope(model, name@));
            if scope {
                let children = match listing.scopes.get(name) {
                    Some(children) => children,
                    None => &none,
                };
                assert(children.deep_view() == scope_in(model, name@));
                let emptied = prune_scope(
                    name.as_str(),
                    children,
                    path.as_str(),
                    expected,
                    &mut outcome.remove,
                );
                if emptied {
                    outcome.remove_dirs.push(path);
                    assert(outcome.remove_dirs.deep_view() =~= held.remove_dirs.push(at));
                }
            } else if !expected.contains(name) {
                outcome.remove.push(path);
                assert(outcome.remove.deep_view() =~= held.remove.push(at));
            }
        }
        i = i + 1;
    }
    assert(names.take(n as int) =~= names);
    outcome
}

/// Two packages that publish an entry point under one name.
#[derive(Debug)]
pub struct BinCollision {
    /// The directory that the entry point is linked in.
    pub bin_dir: String,
    pub name: String,
    /// The package whose entry point is linked.
    pub winner: String,
    /// The package whose entry point is not.
    pub loser: String,
}

} // verus!
