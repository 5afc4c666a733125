//! Finding the copies of each package that its peers call for.

use vstd::prelude::*;
use vstd::string::*;
use crate::graph::{PackageModel, ResolvedGraph, ResolvedPackage};
use crate::instance::{Environment, Instance, InstanceModel};
use crate::order::{Duplicate, Key};
use crate::package_id::{IdModel, PackageId};
use crate::peers::{names_needed, pairs_are_finite};
use crate::range::{range_admits, satisfies};
use crate::sorted::{in_order, take_one_more, SortedMap, SortedSet};

verus! {

/// What is in sight from some place, outermost first: what the importer
/// provides, then what each package on the way down depends on.
pub type Chain = Seq<Map<Seq<char>, IdModel>>;

/// Who provides a name, nearest frame first, and which frame that is.
pub open spec fn provider(name: Seq<char>, chain: Chain) -> Option<(nat, IdModel)>
    decreases chain.len(),
{
    if chain.len() == 0 {
        None
    } else if chain.last().contains_key(name) {
        Some(((chain.len() - 1) as nat, chain.last()[name]))
    } else {
        provider(name, chain.drop_last())
    }
}

/// A provider is what its frame has under the name.
pub proof fn providers_provide(name: Seq<char>, chain: Chain)
    ensures
        match provider(name, chain) {
            Some((frame, found)) => frame < chain.len() && chain[frame as int].contains_key(name)
                && chain[frame as int][name] == found,
            None => true,
        },
    decreases chain.len(),
{
    if chain.len() > 0 && !chain.last().contains_key(name) {
        providers_provide(name, chain.drop_last());
    }
}

/// Every question of the form "which copy of this package sits below the
/// first so many frames".
pub open spec fn queries(packages: Map<IdModel, PackageModel>, frames: nat) -> Set<(IdModel, nat)> {
    Set::new(|query: (IdModel, nat)| packages.contains_key(query.0) && query.1 <= frames)
}

/// Which copy of a package sits below a chain, when some questions are still
/// open. A question that is being answered already gets the package with no
/// environment: a loop cannot be spelled out inside a finite copy.
pub open spec fn instance_at(
    packages: Map<IdModel, PackageModel>,
    id: IdModel,
    chain: Chain,
    open: Set<(IdModel, nat)>,
) -> InstanceModel
    decreases open.len(), 0nat,
        when open.finite()
{
    if open.contains((id, chain.len())) {
        InstanceModel {
            package: id,
            environment: environment_of(
                packages,
                in_order::<String>(names_needed(packages)[id]),
                id,
                chain,
                open.remove((id, chain.len())),
            ),
        }
    } else {
        InstanceModel { package: id, environment: seq![] }
    }
}

/// The copies that answer some peer names from above a package. A name that
/// the package's own dependencies answer is answered the same way in every
/// copy, and is left out.
pub open spec fn environment_of(
    packages: Map<IdModel, PackageModel>,
    names: Seq<Seq<char>>,
    id: IdModel,
    chain: Chain,
    open: Set<(IdModel, nat)>,
) -> Seq<(Seq<char>, InstanceModel)>
    decreases open.len(), names.len(),
        when open.finite()
{
    if names.len() == 0 {
        seq![]
    } else {
        let before = environment_of(packages, names.drop_last(), id, chain, open);
        let name = names.last();
        if packages[id].dependencies.contains_key(name) {
            before
        } else {
            match provider(name, chain) {
                Some((frame, found)) => before.push(
                    (name, instance_at(packages, found, chain.take(frame as int + 1), open)),
                ),
                None => before,
            }
        }
    }
}

/// Which copy of a package sits below a chain.
pub open spec fn instance_of(
    packages: Map<IdModel, PackageModel>,
    id: IdModel,
    chain: Chain,
) -> InstanceModel {
    instance_at(packages, id, chain, queries(packages, chain.len()))
}

/// What one copy resolved.
pub struct CopyModel<N> {
    /// Its own peers, and the copy of each that answered.
    pub own: Map<Seq<char>, N>,
    /// What it depends on.
    pub dependencies: Map<Seq<char>, N>,
}

/// Does a provider in sight answer a declared peer?
pub open spec fn answers(package: PackageModel, chain: Chain, name: Seq<char>) -> bool {
    &&& package.declared_peers.contains_key(name)
    &&& provider(name, chain) is Some
    &&& range_admits(package.declared_peers[name].range, (provider(name, chain)->0).1.version)
}

/// Which copy answers each of a package's declared peers. A provider outside
/// the range is left out just as a missing one is.
pub open spec fn own_answers(
    packages: Map<IdModel, PackageModel>,
    package: PackageModel,
    chain: Chain,
) -> Map<Seq<char>, InstanceModel> {
    Map::new(
        |name: Seq<char>| answers(package, chain, name),
        |name: Seq<char>|
            {
                let (frame, found) = provider(name, chain)->0;
                instance_of(packages, found, chain.take(frame as int + 1))
            },
    )
}

/// What a copy of a package resolved, below a chain that ends with its own
/// dependencies.
pub open spec fn copy_of(
    packages: Map<IdModel, PackageModel>,
    package: PackageModel,
    chain: Chain,
) -> CopyModel<InstanceModel> {
    CopyModel {
        own: own_answers(packages, package, chain),
        dependencies: package.dependencies.map_values(
            |id: IdModel| instance_of(packages, id, chain),
        ),
    }
}

/// A copy that resolved nothing.
pub open spec fn no_copy<N>() -> CopyModel<N> {
    CopyModel { own: Map::empty(), dependencies: Map::empty() }
}

/// The copies that are found, and what each resolved.
pub type Copies = Map<InstanceModel, CopyModel<InstanceModel>>;

/// The copies found from one edge down, on top of those found already, if so
/// many levels are enough. A copy that was found already is not entered
/// again, which is what ends a cycle.
pub open spec fn discovered(
    packages: Map<IdModel, PackageModel>,
    id: IdModel,
    chain: Chain,
    copies: Copies,
    levels: nat,
) -> Option<Copies>
    decreases levels, 0nat,
{
    let here = instance_of(packages, id, chain);
    if copies.contains_key(here) {
        Some(copies)
    } else if !packages.contains_key(id) {
        Some(copies.insert(here, no_copy()))
    } else if levels == 0 {
        None
    } else {
        let deps = packages[id].dependencies;
        let longer = chain.push(deps);
        match discovered_below(
            packages,
            in_order::<String>(deps.dom()),
            deps,
            longer,
            copies.insert(here, no_copy()),
            (levels - 1) as nat,
        ) {
            Some(found) => Some(found.insert(here, copy_of(packages, packages[id], longer))),
            None => None,
        }
    }
}

/// The copies found from some of a package's edges down, in order.
pub open spec fn discovered_below(
    packages: Map<IdModel, PackageModel>,
    names: Seq<Seq<char>>,
    deps: Map<Seq<char>, IdModel>,
    chain: Chain,
    copies: Copies,
    levels: nat,
) -> Option<Copies>
    decreases levels, names.len(),
{
    if names.len() == 0 {
        Some(copies)
    } else {
        match discovered_below(packages, names.drop_last(), deps, chain, copies, levels) {
            Some(before) => discovered(packages, deps[names.last()], chain, before, levels),
            None => None,
        }
    }
}

/// More levels than are needed change nothing.
pub proof fn more_levels(
    packages: Map<IdModel, PackageModel>,
    id: IdModel,
    chain: Chain,
    copies: Copies,
    m: nat,
    n: nat,
)
    requires
        m <= n,
        discovered(packages, id, chain, copies, m) is Some,
    ensures
        discovered(packages, id, chain, copies, n) == discovered(packages, id, chain, copies, m),
    decreases m, 0nat,
{
    let here = instance_of(packages, id, chain);
    if !copies.contains_key(here) && packages.contains_key(id) {
        let deps = packages[id].dependencies;
        more_levels_below(
            packages,
            in_order::<String>(deps.dom()),
            deps,
            chain.push(deps),
            copies.insert(here, no_copy()),
            (m - 1) as nat,
            (n - 1) as nat,
        );
    }
}

/// More levels than are needed change nothing.
pub proof fn more_levels_below(
    packages: Map<IdModel, PackageModel>,
    names: Seq<Seq<char>>,
    deps: Map<Seq<char>, IdModel>,
    chain: Chain,
    copies: Copies,
    m: nat,
    n: nat,
)
    requires
        m <= n,
        discovered_below(packages, names, deps, chain, copies, m) is Some,
    ensures
        discovered_below(packages, names, deps, chain, copies, n) == discovered_below(
            packages,
            names,
            deps,
            chain,
            copies,
            m,
        ),
    decreases m, names.len(),
{
    if names.len() > 0 {
        more_levels_below(packages, names.drop_last(), deps, chain, copies, m, n);
        let before = discovered_below(packages, names.drop_last(), deps, chain, copies, m)->0;
        more_levels(packages, deps[names.last()], chain, before, m, n);
    }
}

/// There are finitely many questions to ask.
pub proof fn queries_are_finite(packages: Map<IdModel, PackageModel>, frames: nat)
    requires
        packages.dom().finite(),
    ensures
        queries(packages, frames).finite(),
{
    let lengths = vstd::set_lib::set_int_range(0, frames as int + 1);
    vstd::set_lib::lemma_int_range(0, frames as int + 1);
    let to_nat = |i: int| i as nat;
    lengths.lemma_map_finite(to_nat);
    let counts = lengths.map(to_nat);
    pairs_are_finite(packages.dom(), counts);
    let all = Set::new(
        |pair: (IdModel, nat)| packages.dom().contains(pair.0) && counts.contains(pair.1),
    );
    assert forall|query: (IdModel, nat)| queries(packages, frames).contains(query) implies
        all.contains(query) by {
        assert(lengths.contains(query.1 as int));
        assert(to_nat(query.1 as int) == query.1);
    }
    vstd::set_lib::lemma_set_subset_finite(all, queries(packages, frames));
}

/// The questions that are open while some are being answered.
spec fn open_queries(
    packages: Map<IdModel, PackageModel>,
    frames: nat,
    computing: Set<(IdModel, usize)>,
) -> Set<(IdModel, nat)> {
    Set::new(
        |query: (IdModel, nat)|
            packages.contains_key(query.0) && query.1 <= frames && !computing.contains(
                (query.0, query.1 as usize),
            ),
    )
}

/// Find who provides a name in the first so many frames, nearest first.
pub fn provider_of(name: &str, chain: &Vec<&SortedMap<String, PackageId>>, frames: usize) -> (found:
    Option<(usize, PackageId)>)
    requires
        frames <= chain@.len(),
    ensures
        match found {
            Some((frame, id)) => provider(name@, chain.deep_view().take(frames as int)) == Some(
                (frame as nat, id.deep_view()),
            ),
            None => provider(name@, chain.deep_view().take(frames as int)) is None,
        },
{
    let ghost all = chain.deep_view();
    let mut i: usize = frames;
    while i > 0
        invariant
            i <= frames <= chain@.len(),
            all == chain.deep_view(),
            provider(name@, all.take(frames as int)) == provider(name@, all.take(i as int)),
        decreases i,
    {
        i = i - 1;
        let ghost seen = all.take(i + 1);
        assert(seen.last() == chain@[i as int].deep_view());
        assert(seen.drop_last() =~= all.take(i as int));
        match chain[i].named(name) {
            Some(id) => {
                return Some((i, id.duplicate()));
            },
            None => {},
        }
    }
    None
}

/// A view of a graph that knows which peer names each subtree can ask about.
pub struct Sight<'a> {
    pub graph: &'a ResolvedGraph,
    pub needed: SortedMap<PackageId, SortedSet<String>>,
}

impl<'a> Sight<'a> {
    /// What the graph holds.
    pub open spec fn packages(&self) -> Map<IdModel, PackageModel> {
        self.graph.packages.deep_view()
    }

    /// Are the names the needed ones?
    pub open spec fn is_clear(&self) -> bool {
        &&& self.needed.deep_view() == names_needed(self.packages())
        &&& self.packages().dom().finite()
    }

    fn instance_among(
        &self,
        id: &PackageId,
        chain: &Vec<&SortedMap<String, PackageId>>,
        frames: usize,
        computing: &mut SortedSet<(PackageId, usize)>,
        Ghost(limit): Ghost<nat>,
    ) -> (instance: Instance)
        requires
            self.is_clear(),
            frames <= chain@.len(),
            frames <= limit <= usize::MAX,
        ensures
            instance.deep_view() == instance_at(
                self.packages(),
                id.deep_view(),
                chain.deep_view().take(frames as int),
                open_queries(self.packages(), limit, old(computing).deep_view()),
            ),
            final(computing).deep_view() == old(computing).deep_view(),
        decreases open_queries(self.packages(), limit, old(computing).deep_view()).len(),
    {
        let ghost packages = self.packages();
        let ghost here = id.deep_view();
        let ghost seen = chain.deep_view().take(frames as int);
        let ghost busy = computing.deep_view();
        let ghost open = open_queries(packages, limit, busy);
        proof {
            queries_are_finite(packages, limit);
            assert(open.subset_of(queries(packages, limit)));
            vstd::set_lib::lemma_set_subset_finite(queries(packages, limit), open);
        }
        let package = match self.graph.packages.get(id) {
            Some(package) => package,
            None => {
                return Instance { package: id.duplicate(), environment: Environment::empty() };
            },
        };
        let names = match self.needed.get(id) {
            Some(names) => names,
            None => {
                return Instance { package: id.duplicate(), environment: Environment::empty() };
            },
        };
        let query = (id.duplicate(), frames);
        if computing.contains(&query) {
            assert(!open.contains((here, seen.len())));
            return Instance { package: id.duplicate(), environment: Environment::empty() };
        }
        assert(open.contains((here, seen.len())));
        computing.insert(query.duplicate());
        let ghost left = open.remove((here, seen.len()));
        assert(open_queries(packages, limit, computing.deep_view()) =~= left);
        let mut environment = Environment::empty();
        let n: usize = names.len();
        let ghost all = names.keys();
        let mut i: usize = 0;
        while i < n
            invariant
                i <= n == all.len(),
                all == names.keys(),
                self.is_clear(),
                packages == self.packages(),
                packages.contains_key(here),
                package.deep_view() == packages[here],
                frames <= chain@.len(),
                frames <= limit <= usize::MAX,
                busy == old(computing).deep_view(),
                seen == chain.deep_view().take(frames as int),
                computing.deep_view() == busy.insert((here, frames)),
                left == open_queries(packages, limit, computing.deep_view()),
                left.finite(),
                open == open_queries(packages, limit, busy),
                open.finite(),
                open.contains((here, seen.len())),
                left == open.remove((here, seen.len())),
                environment.model() == environment_of(
                    packages,
                    all.take(i as int),
                    here,
                    seen,
                    left,
                ),
            decreases n - i,
        {
            let name = names.key_at(i);
            assert(all.take(i + 1).drop_last() =~= all.take(i as int));
            assert(all.take(i + 1).last() == name@);
            if !package.dependencies.contains(name) {
                match provider_of(name.as_str(), chain, frames) {
                    Some((frame, found)) => {
                        proof {
                            providers_provide(name@, seen);
                            assert(seen.take(frame + 1) =~= chain.deep_view().take(frame + 1));
                        }
                        let answer = self.instance_among(
                            &found,
                            chain,
                            frame + 1,
                            computing,
                            Ghost(limit),
                        );
                        environment.push(name.duplicate(), answer);
                    },
                    None => {},
                }
            }
            i = i + 1;
        }
        assert(all.take(n as int) =~= all);
        computing.remove(&query);
        assert(computing.deep_view() =~= busy);
        Instance { package: id.duplicate(), environment }
    }

    /// Which copy of a package sits below the first so many frames.
    pub fn instance_below(
        &self,
        id: &PackageId,
        chain: &Vec<&SortedMap<String, PackageId>>,
        frames: usize,
    ) -> (instance: Instance)
        requires
            self.is_clear(),
            frames <= chain@.len(),
        ensures
            instance.deep_view() == instance_of(
                self.packages(),
                id.deep_view(),
                chain.deep_view().take(frames as int),
            ),
    {
        let mut computing: SortedSet<(PackageId, usize)> = SortedSet::new();
        assert(open_queries(self.packages(), frames as nat, computing.deep_view()) =~= queries(
            self.packages(),
            frames as nat,
        ));
        self.instance_among(id, chain, frames, &mut computing, Ghost(frames as nat))
    }

    /// Which copy answers each of a package's declared peers.
    pub fn own_peers(
        &self,
        package: &ResolvedPackage,
        chain: &Vec<&SortedMap<String, PackageId>>,
    ) -> (own: SortedMap<String, Instance>)
        requires
            self.is_clear(),
        ensures
            own.deep_view() == own_answers(
                self.packages(),
                package.deep_view(),
                chain.deep_view(),
            ),
    {
        let ghost goal = own_answers(self.packages(), package.deep_view(), chain.deep_view());
        let ghost seen = chain.deep_view();
        let mut own: SortedMap<String, Instance> = SortedMap::new();
        let n: usize = package.declared_peers.len();
        let ghost names = package.declared_peers.keys();
        assert(goal.restrict(names.take(0).to_set()) =~= Map::<Seq<char>, InstanceModel>::empty());
        assert(seen.take(seen.len() as int) =~= seen);
        let mut i: usize = 0;
        while i < n
            invariant
                i <= n == names.len(),
                names == package.declared_peers.keys(),
                self.is_clear(),
                seen == chain.deep_view(),
                seen.take(seen.len() as int) == seen,
                seen.len() == chain@.len(),
                goal == own_answers(self.packages(), package.deep_view(), seen),
                own.deep_view() == goal.restrict(names.take(i as int).to_set()),
            decreases n - i,
        {
            let name = package.declared_peers.key_at(i);
            let declared = package.declared_peers.value_at(i);
            match provider_of(name.as_str(), chain, chain.len()) {
                Some((frame, found)) => {
                    proof {
                        providers_provide(name@, seen);
                    }
                    if satisfies(found.version.as_str(), declared.range.as_str()) {
                        assert(answers(package.deep_view(), seen, name@));
                        own.insert(name.duplicate(), self.instance_below(&found, chain, frame + 1));
                    } else {
                        assert(!answers(package.deep_view(), seen, name@));
                    }
                },
                None => {
                    assert(!answers(package.deep_view(), seen, name@));
                },
            }
            proof {
                take_one_more(names, i as int);
                assert(own.deep_view() =~= goal.restrict(names.take(i + 1).to_set()));
            }
            i = i + 1;
        }
        proof {
            assert(names.take(n as int) =~= names);
            assert(goal.restrict(names.to_set()) =~= goal);
        }
        own
    }
}

/// What one copy resolved.
#[derive(Debug)]
pub struct PeerCopy<K: Key> {
    pub own: SortedMap<String, K>,
    pub dependencies: SortedMap<String, K>,
}

impl<K: Key> DeepView for PeerCopy<K> {
    type V = CopyModel<K::V>;

    open spec fn deep_view(&self) -> CopyModel<K::V> {
        CopyModel { own: self.own.deep_view(), dependencies: self.dependencies.deep_view() }
    }
}

impl<K: Key> Duplicate for PeerCopy<K> {
    fn duplicate(&self) -> (copy: Self) {
        PeerCopy { own: self.own.duplicate(), dependencies: self.dependencies.duplicate() }
    }
}

impl<K: Key> PeerCopy<K> {
    fn nothing() -> (copy: Self)
        ensures
            copy.deep_view() == no_copy::<K::V>(),
    {
        PeerCopy { own: SortedMap::new(), dependencies: SortedMap::new() }
    }
}

impl<'a> Sight<'a> {
    /// Find every copy reachable from one edge, resolving peers on the way.
    ///
    /// A copy is noted before its dependencies are entered, so that a cycle
    /// finds it there and stops.
    pub fn discover(
        &self,
        id: &PackageId,
        chain: &mut Vec<&'a SortedMap<String, PackageId>>,
        copies: &mut SortedMap<Instance, PeerCopy<Instance>>,
    ) -> (instance: Instance)
        requires
            self.is_clear(),
        ensures
            instance.deep_view() == instance_of(
                self.packages(),
                id.deep_view(),
                old(chain).deep_view(),
            ),
            final(chain)@ == old(chain)@,
            exists|levels: nat| #[trigger]
                discovered(
                    self.packages(),
                    id.deep_view(),
                    old(chain).deep_view(),
                    old(copies).deep_view(),
                    levels,
                ) == Some(final(copies).deep_view()),
            old(copies).deep_view().dom().len() <= final(copies).deep_view().dom().len(),
        decreases usize::MAX - old(copies).deep_view().dom().len(),
    {
        let ghost packages = self.packages();
        let ghost seen = chain.deep_view();
        let ghost links = chain@;
        let ghost before = copies.deep_view();
        assert(seen.take(chain@.len() as int) =~= seen);
        let size: usize = copies.len();
        let instance = self.instance_below(id, &*chain, chain.len());
        let ghost here = instance.deep_view();
        if copies.contains(&instance) {
            assert(discovered(packages, id.deep_view(), seen, before, 0) == Some(before));
            return instance;
        }
        let graph: &'a ResolvedGraph = self.graph;
        let package: &'a ResolvedPackage = match graph.packages.get(id) {
            Some(package) => package,
            None => {
                copies.insert(instance.duplicate(), PeerCopy::nothing());
                let grown: usize = copies.len();
                proof {
                    assert(copies.deep_view().dom() =~= before.dom().insert(here));
                    assert(discovered(packages, id.deep_view(), seen, before, 0) == Some(
                        copies.deep_view(),
                    ));
                }
                return instance;
            },
        };
        copies.insert(instance.duplicate(), PeerCopy::nothing());
        let started: usize = copies.len();
        let ghost base = copies.deep_view();
        assert(base.dom() =~= before.dom().insert(here));
        chain.push(&package.dependencies);
        let ghost deps = package.dependencies.deep_view();
        let ghost longer = seen.push(deps);
        assert(chain.deep_view() =~= longer);
        let ghost linked = chain@;
        let own = self.own_peers(package, &*chain);
        let mut dependencies: SortedMap<String, Instance> = SortedMap::new();
        let ghost goal = deps.map_values(|dep: IdModel| instance_of(packages, dep, longer));
        let n: usize = package.dependencies.len();
        let ghost names = package.dependencies.keys();
        assert(goal.restrict(names.take(0).to_set()) =~= Map::<Seq<char>, InstanceModel>::empty());
        let ghost mut levels: nat = 0;
        assert(discovered_below(packages, names.take(0), deps, longer, base, 0) == Some(base));
        let mut i: usize = 0;
        while i < n
            invariant
                i <= n == names.len(),
                names == package.dependencies.keys(),
                names == in_order::<String>(deps.dom()),
                deps == package.dependencies.deep_view(),
                self.is_clear(),
                packages == self.packages(),
                chain@ == linked,
                chain.deep_view() == longer,
                goal == deps.map_values(|dep: IdModel| instance_of(packages, dep, longer)),
                dependencies.deep_view() == goal.restrict(names.take(i as int).to_set()),
                base.dom().len() > old(copies).deep_view().dom().len(),
                base.dom().len() <= copies.deep_view().dom().len() <= usize::MAX,
                discovered_below(
                    packages,
                    names.take(i as int),
                    deps,
                    longer,
                    base,
                    levels,
                ) == Some(copies.deep_view()),
            decreases n - i,
        {
            let target = package.dependencies.value_at(i);
            let ghost held = copies.deep_view();
            let found = self.discover(target, chain, copies);
            let bounded: usize = copies.len();
            dependencies.insert(package.dependencies.key_at(i).duplicate(), found);
            proof {
                take_one_more(names, i as int);
                assert(dependencies.deep_view() =~= goal.restrict(names.take(i + 1).to_set()));
                assert(names.take(i + 1).drop_last() =~= names.take(i as int));
                let more = choose|more: nat| #[trigger]
                    discovered(packages, target.deep_view(), longer, held, more) == Some(
                        copies.deep_view(),
                    );
                let most = if more >= levels {
                    more
                } else {
                    levels
                };
                more_levels(packages, target.deep_view(), longer, held, more, most);
                more_levels_below(
                    packages,
                    names.take(i as int),
                    deps,
                    longer,
                    base,
                    levels,
                    most,
                );
                levels = most;
                assert(discovered_below(
                    packages,
                    names.take(i + 1),
                    deps,
                    longer,
                    base,
                    levels,
                ) == Some(copies.deep_view()));
            }
            i = i + 1;
        }
        assert(names.take(n as int) =~= names);
        assert(goal.restrict(names.to_set()) =~= goal);
        let ghost found = copies.deep_view();
        let held: usize = copies.len();
        chain.pop();
        assert(chain@ =~= links);
        let copy = PeerCopy { own, dependencies };
        assert(copy.deep_view() == copy_of(packages, package.deep_view(), longer));
        copies.insert(instance.duplicate(), copy);
        let ended: usize = copies.len();
        proof {
            assert(found.dom().subset_of(copies.deep_view().dom()));
            vstd::set_lib::lemma_len_subset(found.dom(), copies.deep_view().dom());
            assert(discovered(packages, id.deep_view(), seen, before, levels + 1) == Some(
                copies.deep_view(),
            ));
        }
        instance
    }
}

} // verus!
