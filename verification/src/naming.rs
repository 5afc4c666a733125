//! Naming the copies that were found, and writing them back as a graph.

use vstd::prelude::*;
use vstd::string::*;
use crate::copies::{Copies, CopyModel, PeerCopy};
use crate::graph::{PackageModel, ResolvedPackage};
use crate::instance::{Instance, InstanceModel};
use crate::order::{Duplicate, Key};
use crate::package_id::{listing, Context, IdModel, PackageId};
use crate::sorted::{in_order, take_one_more, SortedMap, SortedSet};

verus! {

/// The names that copies have been given.
pub type NamesOf<N> = Map<N, IdModel>;

/// The names that copies of packages have been given.
pub type Names = Map<InstanceModel, IdModel>;

/// Copies, and what each resolved to.
pub type CopiesOf<N> = Map<N, CopyModel<N>>;

/// What a copy is known by: something that says which package it is of.
pub trait Node: Key {
    /// The package that a copy is of.
    spec fn package_of(node: Self::V) -> IdModel;

    fn package_id(&self) -> (id: PackageId)
        ensures
            id.deep_view() == Self::package_of(self.deep_view()),
    ;
}

impl Node for Instance {
    open spec fn package_of(node: InstanceModel) -> IdModel {
        node.package
    }

    fn package_id(&self) -> (id: PackageId) {
        self.package.duplicate()
    }
}

/// What names a node: its own resolved peers, and every dependency that itself
/// carries a context. A dependency wins over a peer of the same name.
pub open spec fn context_from(
    own: Map<Seq<char>, IdModel>,
    dependencies: Map<Seq<char>, IdModel>,
) -> Map<Seq<char>, IdModel> {
    own.union_prefer_right(
        dependencies.restrict(
            Set::new(
                |name: Seq<char>|
                    dependencies.contains_key(name) && dependencies[name].context.len() > 0,
            ),
        ),
    )
}

/// The identity of a copy of a package, from what its peers and dependencies
/// are named.
pub open spec fn named_id(
    package: IdModel,
    own: Map<Seq<char>, IdModel>,
    dependencies: Map<Seq<char>, IdModel>,
) -> IdModel {
    IdModel {
        name: package.name,
        version: package.version,
        context: listing(context_from(own, dependencies)),
    }
}

/// A copy's name, cut where it would ask for a name that is being computed.
/// Everything short of the loop is in it, so two copies that differ short of
/// the loop are still named differently.
pub open spec fn cut_name_of<K: Node>(
    copies: CopiesOf<K::V>,
    names: NamesOf<K::V>,
    instance: K::V,
    open: Set<K::V>,
) -> IdModel
    decreases open.len(), 0nat,
        when open.finite()
{
    if names.contains_key(instance) {
        names[instance]
    } else if !open.contains(instance) {
        K::package_of(instance)
    } else {
        named_id(
            K::package_of(instance),
            cut_names_of::<K>(copies, names, copies[instance].own, open.remove(instance)),
            cut_names_of::<K>(copies, names, copies[instance].dependencies, open.remove(instance)),
        )
    }
}

/// The cut names of some copies.
pub open spec fn cut_names_of<K: Node>(
    copies: CopiesOf<K::V>,
    names: NamesOf<K::V>,
    targets: Map<Seq<char>, K::V>,
    open: Set<K::V>,
) -> Map<Seq<char>, IdModel>
    decreases open.len(), 1nat,
        when open.finite()
{
    targets.map_values(|target: K::V| cut_name_of::<K>(copies, names, target, open))
}

/// One copy named, and every copy beneath it, on top of the names there are.
/// A copy that is being named already gets none: it is left out of the name
/// that asked, and kept as an edge.
pub open spec fn identified<K: Node>(
    copies: CopiesOf<K::V>,
    instance: K::V,
    names: NamesOf<K::V>,
    open: Set<K::V>,
) -> (Option<IdModel>, NamesOf<K::V>)
    decreases open.len(), 0nat,
        when open.finite()
{
    if names.contains_key(instance) {
        (Some(names[instance]), names)
    } else if !open.contains(instance) {
        (None, names)
    } else {
        let copy = copies[instance];
        let rest = open.remove(instance);
        let (own, middle) = all_identified::<K>(
            copies,
            in_order::<String>(copy.own.dom()),
            copy.own,
            true,
            names,
            rest,
        );
        let (dependencies, last) = all_identified::<K>(
            copies,
            in_order::<String>(copy.dependencies.dom()),
            copy.dependencies,
            false,
            middle,
            rest,
        );
        let id = named_id(K::package_of(instance), own, dependencies);
        (Some(id), last.insert(instance, id))
    }
}

/// Some copies named in order. One that is being named already gets its cut
/// name if it is a peer, and none if it is a dependency.
pub open spec fn all_identified<K: Node>(
    copies: CopiesOf<K::V>,
    keys: Seq<Seq<char>>,
    targets: Map<Seq<char>, K::V>,
    cut: bool,
    names: NamesOf<K::V>,
    open: Set<K::V>,
) -> (Map<Seq<char>, IdModel>, NamesOf<K::V>)
    decreases open.len(), keys.len(),
        when open.finite()
{
    if keys.len() == 0 {
        (Map::empty(), names)
    } else {
        let (before, middle) = all_identified::<K>(copies, keys.drop_last(), targets, cut, names, open);
        let target = targets[keys.last()];
        let (id, last) = identified::<K>(copies, target, middle, open);
        let given = match id {
            Some(id) => Some(id),
            None => if cut {
                Some(cut_name_of::<K>(copies, last, target, copies.dom()))
            } else {
                None
            },
        };
        match given {
            Some(id) => (before.insert(keys.last(), id), last),
            None => (before, last),
        }
    }
}

/// What names a node, from its resolved peers and its named dependencies.
pub fn context_of(
    own: &SortedMap<String, PackageId>,
    dependencies: &SortedMap<String, PackageId>,
) -> (context: SortedMap<String, PackageId>)
    ensures
        context.deep_view() == context_from(own.deep_view(), dependencies.deep_view()),
{
    let mut context = own.duplicate();
    let ghost mine = own.deep_view();
    let ghost deps = dependencies.deep_view();
    let ghost carrying = deps.restrict(
        Set::new(|name: Seq<char>| deps.contains_key(name) && deps[name].context.len() > 0),
    );
    let n: usize = dependencies.len();
    let ghost keys = dependencies.keys();
    assert(mine.union_prefer_right(carrying.restrict(keys.take(0).to_set())) =~= mine);
    let mut i: usize = 0;
    while i < n
        invariant
            i <= n == keys.len(),
            keys == dependencies.keys(),
            deps == dependencies.deep_view(),
            carrying == deps.restrict(
                Set::new(|name: Seq<char>| deps.contains_key(name) && deps[name].context.len() > 0),
            ),
            context.deep_view() == mine.union_prefer_right(
                carrying.restrict(keys.take(i as int).to_set()),
            ),
        decreases n - i,
    {
        let id = dependencies.value_at(i);
        if id.context.len() > 0 {
            context.insert(dependencies.key_at(i).duplicate(), id.duplicate());
        }
        proof {
            take_one_more(keys, i as int);
            assert(context.deep_view() =~= mine.union_prefer_right(
                carrying.restrict(keys.take(i + 1).to_set()),
            ));
        }
        i = i + 1;
    }
    assert(keys.take(n as int) =~= keys);
    assert(carrying.restrict(keys.to_set()) =~= carrying);
    context
}

/// The identity of a copy of a package, from what its peers and dependencies
/// are named.
pub fn name_copy(
    package: &PackageId,
    own: &SortedMap<String, PackageId>,
    dependencies: &SortedMap<String, PackageId>,
) -> (id: PackageId)
    ensures
        id.deep_view() == named_id(
            package.deep_view(),
            own.deep_view(),
            dependencies.deep_view(),
        ),
{
    PackageId {
        name: package.name.clone(),
        version: package.version.clone(),
        context: Context::of(&context_of(own, dependencies)),
    }
}

/// A copy's name, cut where it would ask for a name that is being computed.
pub fn cut_name<K: Node>(
    copies: &SortedMap<K, PeerCopy<K>>,
    names: &SortedMap<K, PackageId>,
    instance: &K,
    cutting: &mut SortedSet<K>,
) -> (id: PackageId)
    requires
        copies.deep_view().dom().finite(),
    ensures
        id.deep_view() == cut_name_of::<K>(
            copies.deep_view(),
            names.deep_view(),
            instance.deep_view(),
            copies.deep_view().dom().difference(old(cutting).deep_view()),
        ),
        final(cutting).deep_view() == old(cutting).deep_view(),
    decreases copies.deep_view().dom().difference(old(cutting).deep_view()).len(), 0nat,
{
    let ghost all = copies.deep_view();
    let ghost busy = cutting.deep_view();
    let ghost open = all.dom().difference(busy);
    let ghost here = instance.deep_view();
    match names.get(instance) {
        Some(id) => {
            return id.duplicate();
        },
        None => {},
    }
    if cutting.contains(instance) {
        return instance.package_id();
    }
    let copy = match copies.get(instance) {
        Some(copy) => copy,
        None => {
            return instance.package_id();
        },
    };
    cutting.insert(instance.duplicate());
    assert(open.contains(here));
    assert(all.dom().difference(cutting.deep_view()) =~= open.remove(here));
    let own = cut_names::<K>(copies, names, &copy.own, cutting);
    let dependencies = cut_names::<K>(copies, names, &copy.dependencies, cutting);
    cutting.remove(instance);
    assert(cutting.deep_view() =~= busy);
    name_copy(&instance.package_id(), &own, &dependencies)
}

fn cut_names<K: Node>(
    copies: &SortedMap<K, PeerCopy<K>>,
    names: &SortedMap<K, PackageId>,
    targets: &SortedMap<String, K>,
    cutting: &mut SortedSet<K>,
) -> (ids: SortedMap<String, PackageId>)
    requires
        copies.deep_view().dom().finite(),
    ensures
        ids.deep_view() == cut_names_of::<K>(
            copies.deep_view(),
            names.deep_view(),
            targets.deep_view(),
            copies.deep_view().dom().difference(old(cutting).deep_view()),
        ),
        final(cutting).deep_view() == old(cutting).deep_view(),
    decreases copies.deep_view().dom().difference(old(cutting).deep_view()).len(), 1nat,
{
    let mut ids: SortedMap<String, PackageId> = SortedMap::new();
    let n: usize = targets.len();
    let ghost keys = targets.keys();
    let ghost busy = cutting.deep_view();
    assert(keys.take(0).to_set() =~= Set::<Seq<char>>::empty());
    let mut i: usize = 0;
    while i < n
        invariant
            i <= n == keys.len(),
            keys == targets.keys(),
            copies.deep_view().dom().finite(),
            busy == old(cutting).deep_view(),
            cutting.deep_view() == busy,
            ids.deep_view().dom() == keys.take(i as int).to_set(),
            forall|key: Seq<char>| #[trigger]
                ids.deep_view().contains_key(key) ==> ids.deep_view()[key] == cut_name_of::<K>(
                    copies.deep_view(),
                    names.deep_view(),
                    targets.deep_view()[key],
                    copies.deep_view().dom().difference(busy),
                ),
        decreases n - i,
    {
        let id = cut_name::<K>(copies, names, targets.value_at(i), cutting);
        ids.insert(targets.key_at(i).duplicate(), id);
        proof {
            take_one_more(keys, i as int);
            assert(ids.deep_view().dom() =~= keys.take(i + 1).to_set());
        }
        i = i + 1;
    }
    assert(keys.take(n as int) =~= keys);
    assert(ids.deep_view() =~= cut_names_of::<K>(
        copies.deep_view(),
        names.deep_view(),
        targets.deep_view(),
        copies.deep_view().dom().difference(busy),
    ));
    ids
}

/// Name one copy, and every copy beneath it. A copy that is being named
/// already gets no name here: the edge to it closes a cycle.
pub fn identify<K: Node>(
    copies: &SortedMap<K, PeerCopy<K>>,
    instance: &K,
    names: &mut SortedMap<K, PackageId>,
    identifying: &mut SortedSet<K>,
) -> (id: Option<PackageId>)
    requires
        copies.deep_view().dom().finite(),
    ensures
        (id.deep_view(), final(names).deep_view()) == identified::<K>(
            copies.deep_view(),
            instance.deep_view(),
            old(names).deep_view(),
            copies.deep_view().dom().difference(old(identifying).deep_view()),
        ),
        final(identifying).deep_view() == old(identifying).deep_view(),
    decreases copies.deep_view().dom().difference(old(identifying).deep_view()).len(), 0nat,
{
    let ghost all = copies.deep_view();
    let ghost busy = identifying.deep_view();
    let ghost open = all.dom().difference(busy);
    let ghost here = instance.deep_view();
    match names.get(instance) {
        Some(id) => {
            return Some(id.duplicate());
        },
        None => {},
    }
    if identifying.contains(instance) {
        return None;
    }
    let copy = match copies.get(instance) {
        Some(copy) => copy,
        None => {
            return None;
        },
    };
    identifying.insert(instance.duplicate());
    assert(open.contains(here));
    assert(all.dom().difference(identifying.deep_view()) =~= open.remove(here));
    let own = identify_all::<K>(copies, &copy.own, true, names, identifying);
    let dependencies = identify_all::<K>(copies, &copy.dependencies, false, names, identifying);
    let id = name_copy(&instance.package_id(), &own, &dependencies);
    identifying.remove(instance);
    assert(identifying.deep_view() =~= busy);
    names.insert(instance.duplicate(), id.duplicate());
    Some(id)
}

fn identify_all<K: Node>(
    copies: &SortedMap<K, PeerCopy<K>>,
    targets: &SortedMap<String, K>,
    cut: bool,
    names: &mut SortedMap<K, PackageId>,
    identifying: &mut SortedSet<K>,
) -> (ids: SortedMap<String, PackageId>)
    requires
        copies.deep_view().dom().finite(),
    ensures
        (ids.deep_view(), final(names).deep_view()) == all_identified::<K>(
            copies.deep_view(),
            in_order::<String>(targets.deep_view().dom()),
            targets.deep_view(),
            cut,
            old(names).deep_view(),
            copies.deep_view().dom().difference(old(identifying).deep_view()),
        ),
        final(identifying).deep_view() == old(identifying).deep_view(),
    decreases copies.deep_view().dom().difference(old(identifying).deep_view()).len(), 1nat,
{
    let ghost all = copies.deep_view();
    let ghost busy = identifying.deep_view();
    let ghost open = all.dom().difference(busy);
    let ghost start = names.deep_view();
    let ghost wanted = targets.deep_view();
    let mut ids: SortedMap<String, PackageId> = SortedMap::new();
    let n: usize = targets.len();
    let ghost keys = targets.keys();
    let mut i: usize = 0;
    while i < n
        invariant
            i <= n == keys.len(),
            keys == targets.keys(),
            wanted == targets.deep_view(),
            all == copies.deep_view(),
            all.dom().finite(),
            busy == old(identifying).deep_view(),
            identifying.deep_view() == busy,
            open == all.dom().difference(busy),
            (ids.deep_view(), names.deep_view()) == all_identified::<K>(
                all,
                keys.take(i as int),
                wanted,
                cut,
                start,
                open,
            ),
        decreases n - i,
    {
        let target = targets.value_at(i);
        assert(keys.take(i + 1).drop_last() =~= keys.take(i as int));
        assert(keys.take(i + 1).last() == keys[i as int]);
        match identify::<K>(copies, target, names, identifying) {
            Some(id) => {
                ids.insert(targets.key_at(i).duplicate(), id);
            },
            None => {
                if cut {
                    let mut cutting: SortedSet<K> = SortedSet::new();
                    assert(all.dom().difference(cutting.deep_view()) =~= all.dom());
                    let id = cut_name::<K>(copies, &*names, target, &mut cutting);
                    ids.insert(targets.key_at(i).duplicate(), id);
                }
            },
        }
        i = i + 1;
    }
    assert(keys.take(n as int) =~= keys);
    ids
}

/// Naming a copy names it, and takes no name away.
pub proof fn naming_covers<K: Node>(
    copies: CopiesOf<K::V>,
    instance: K::V,
    names: NamesOf<K::V>,
    open: Set<K::V>,
)
    requires
        open.finite(),
    ensures
        names.dom().subset_of(identified::<K>(copies, instance, names, open).1.dom()),
        open.contains(instance) ==> identified::<K>(copies, instance, names, open).1.contains_key(
            instance,
        ),
    decreases open.len(), 0nat,
{
    if !names.contains_key(instance) && open.contains(instance) {
        let copy = copies[instance];
        let rest = open.remove(instance);
        let own_keys = in_order::<String>(copy.own.dom());
        let dep_keys = in_order::<String>(copy.dependencies.dom());
        naming_all_covers::<K>(copies, own_keys, copy.own, true, names, rest);
        let middle = all_identified::<K>(copies, own_keys, copy.own, true, names, rest).1;
        naming_all_covers::<K>(copies, dep_keys, copy.dependencies, false, middle, rest);
    }
}

/// Naming some copies names each of them, and takes no name away.
pub proof fn naming_all_covers<K: Node>(
    copies: CopiesOf<K::V>,
    keys: Seq<Seq<char>>,
    targets: Map<Seq<char>, K::V>,
    cut: bool,
    names: NamesOf<K::V>,
    open: Set<K::V>,
)
    requires
        open.finite(),
    ensures
        names.dom().subset_of(
            all_identified::<K>(copies, keys, targets, cut, names, open).1.dom(),
        ),
        forall|i: int|
            0 <= i < keys.len() && open.contains(targets[#[trigger] keys[i]]) ==> all_identified::<
                K,
            >(copies, keys, targets, cut, names, open).1.contains_key(targets[keys[i]]),
    decreases open.len(), keys.len(),
{
    if keys.len() > 0 {
        let rest = keys.drop_last();
        naming_all_covers::<K>(copies, rest, targets, cut, names, open);
        let middle = all_identified::<K>(copies, rest, targets, cut, names, open).1;
        naming_covers::<K>(copies, targets[keys.last()], middle, open);
        let after = all_identified::<K>(copies, keys, targets, cut, names, open).1;
        assert(after == identified::<K>(copies, targets[keys.last()], middle, open).1);
        assert forall|i: int|
            0 <= i < keys.len() && open.contains(
                targets[#[trigger] keys[i]],
            ) implies after.contains_key(targets[keys[i]]) by {
            if i < rest.len() {
                assert(rest[i] == keys[i]);
                assert(middle.contains_key(targets[rest[i]]));
            }
        }
    }
}

/// Name some copies in order, and everything below them.
pub fn identify_each<K: Node>(
    copies: &SortedMap<K, PeerCopy<K>>,
    targets: &SortedMap<String, K>,
    names: &mut SortedMap<K, PackageId>,
)
    requires
        copies.deep_view().dom().finite(),
    ensures
        final(names).deep_view() == all_identified::<K>(
            copies.deep_view(),
            in_order::<String>(targets.deep_view().dom()),
            targets.deep_view(),
            false,
            old(names).deep_view(),
            copies.deep_view().dom(),
        ).1,
{
    let mut identifying: SortedSet<K> = SortedSet::new();
    assert(copies.deep_view().dom().difference(identifying.deep_view()) =~= copies.deep_view().dom());
    identify_all(copies, targets, false, names, &mut identifying);
}

/// The names that some copies were given, under the keys they are held by.
pub open spec fn names_of(targets: Map<Seq<char>, InstanceModel>, names: Names) -> Map<
    Seq<char>,
    IdModel,
> {
    Map::new(
        |key: Seq<char>| targets.contains_key(key) && names.contains_key(targets[key]),
        |key: Seq<char>| names[targets[key]],
    )
}

/// The node that a copy becomes. What was published is carried straight
/// across: a copy declares what the version declared.
pub open spec fn emitted_package(
    source: PackageModel,
    copy: CopyModel<InstanceModel>,
    names: Names,
    id: IdModel,
) -> PackageModel {
    PackageModel {
        id,
        dependencies: names_of(copy.dependencies, names),
        peers: names_of(copy.own, names),
        ..source
    }
}

/// The nodes that some copies become, a later copy taking the place of an
/// earlier one of the same name. One that was never named is unreachable, and
/// one of a package that the graph does not hold is nobody's.
pub open spec fn emitted(
    source: Map<IdModel, PackageModel>,
    copies: Copies,
    names: Names,
    order: Seq<InstanceModel>,
) -> Map<IdModel, PackageModel>
    decreases order.len(),
{
    if order.len() == 0 {
        Map::empty()
    } else {
        let before = emitted(source, copies, names, order.drop_last());
        let last = order.last();
        if names.contains_key(last) && source.contains_key(last.package) {
            before.insert(
                names[last],
                emitted_package(source[last.package], copies[last], names, names[last]),
            )
        } else {
            before
        }
    }
}

fn name_all(
    targets: &SortedMap<String, Instance>,
    names: &SortedMap<Instance, PackageId>,
) -> (ids: SortedMap<String, PackageId>)
    ensures
        ids.deep_view() == names_of(targets.deep_view(), names.deep_view()),
{
    let ghost goal = names_of(targets.deep_view(), names.deep_view());
    let mut ids: SortedMap<String, PackageId> = SortedMap::new();
    let n: usize = targets.len();
    let ghost keys = targets.keys();
    assert(goal.restrict(keys.take(0).to_set()) =~= Map::<Seq<char>, IdModel>::empty());
    let mut i: usize = 0;
    while i < n
        invariant
            i <= n == keys.len(),
            keys == targets.keys(),
            goal == names_of(targets.deep_view(), names.deep_view()),
            ids.deep_view() == goal.restrict(keys.take(i as int).to_set()),
        decreases n - i,
    {
        match names.get(targets.value_at(i)) {
            Some(id) => {
                ids.insert(targets.key_at(i).duplicate(), id.duplicate());
            },
            None => {},
        }
        proof {
            take_one_more(keys, i as int);
            assert(ids.deep_view() =~= goal.restrict(keys.take(i + 1).to_set()));
        }
        i = i + 1;
    }
    assert(keys.take(n as int) =~= keys);
    assert(goal.restrict(keys.to_set()) =~= goal);
    ids
}

/// Write the named copies back as packages.
pub fn emit(
    source: &SortedMap<PackageId, ResolvedPackage>,
    copies: &SortedMap<Instance, PeerCopy<Instance>>,
    names: &SortedMap<Instance, PackageId>,
) -> (packages: SortedMap<PackageId, ResolvedPackage>)
    ensures
        packages.deep_view() == emitted(
            source.deep_view(),
            copies.deep_view(),
            names.deep_view(),
            in_order::<Instance>(copies.deep_view().dom()),
        ),
{
    let mut packages: SortedMap<PackageId, ResolvedPackage> = SortedMap::new();
    let n: usize = copies.len();
    let ghost order = copies.keys();
    let mut i: usize = 0;
    while i < n
        invariant
            i <= n == order.len(),
            order == copies.keys(),
            packages.deep_view() == emitted(
                source.deep_view(),
                copies.deep_view(),
                names.deep_view(),
                order.take(i as int),
            ),
        decreases n - i,
    {
        let instance = copies.key_at(i);
        let copy = copies.value_at(i);
        assert(order.take(i + 1).drop_last() =~= order.take(i as int));
        assert(order.take(i + 1).last() == instance.deep_view());
        match names.get(instance) {
            Some(id) => match source.get(&instance.package) {
                Some(published) => {
                    let package = ResolvedPackage {
                        id: id.duplicate(),
                        resolved: published.resolved.clone(),
                        integrity: published.integrity.duplicate(),
                        dependencies: name_all(&copy.dependencies, names),
                        optional_dependencies: published.optional_dependencies.duplicate(),
                        supports: published.supports.duplicate(),
                        bins: published.bins.duplicate(),
                        declared_peers: published.declared_peers.duplicate(),
                        peers: name_all(&copy.own, names),
                    };
                    packages.insert(id.duplicate(), package);
                },
                None => {},
            },
            None => {},
        }
        i = i + 1;
    }
    assert(order.take(n as int) =~= order);
    packages
}

} // verus!
