//! Required peers that a finished graph leaves unanswered.

use vstd::prelude::*;
use vstd::string::*;
use crate::copies::{provider, provider_of, Chain};
use crate::graph::{
    GraphModel, Importer, ImporterModel, PackageModel, Resolution, ResolvedGraph, ResolvedPackage,
};
use crate::importer::ImporterPath;
use crate::order::Duplicate;
use crate::package_id::{plain_id, IdModel, PackageId};
use crate::range::{range_admits, satisfies};
use crate::sorted::{in_order, take_one_more, SortedMap, SortedSet};

verus! {

/// A required peer that nothing in the dependent's environment satisfies.
#[derive(Debug)]
pub struct UnsatisfiedPeer {
    /// The package that declared the peer, as published.
    pub dependent: PackageId,
    /// The name it declared, and the range it asked of it.
    pub peer: String,
    pub range: String,
    /// The version of the provider that was found, if one was: something
    /// provides the peer, and it is the wrong version.
    pub found: Option<String>,
}

/// What an [`UnsatisfiedPeer`] means.
pub struct ComplaintModel {
    pub dependent: IdModel,
    pub peer: Seq<char>,
    pub range: Seq<char>,
    pub found: Option<Seq<char>>,
}

impl DeepView for UnsatisfiedPeer {
    type V = ComplaintModel;

    open spec fn deep_view(&self) -> ComplaintModel {
        ComplaintModel {
            dependent: self.dependent.deep_view(),
            peer: self.peer@,
            range: self.range@,
            found: self.found.deep_view(),
        }
    }
}

impl Duplicate for UnsatisfiedPeer {
    fn duplicate(&self) -> (copy: Self) {
        UnsatisfiedPeer {
            dependent: self.dependent.duplicate(),
            peer: self.peer.clone(),
            range: self.range.clone(),
            found: self.found.duplicate(),
        }
    }
}

/// Complaints, by the package as published and the peer.
pub type Complaints = Map<(IdModel, Seq<char>), ComplaintModel>;

/// The package as published: its identity with the context dropped.
pub open spec fn published_id(id: IdModel) -> IdModel {
    plain_id(id.name, id.version)
}

/// What there is to complain about one declared peer, from what is in sight:
/// nothing if it is satisfied, or if it is missing and may be. An optional
/// peer may be absent; it may not be the wrong version.
pub open spec fn complaint_about(
    id: IdModel,
    package: PackageModel,
    chain: Chain,
    name: Seq<char>,
) -> Option<ComplaintModel> {
    let declared = package.declared_peers[name];
    let complaint = ComplaintModel {
        dependent: published_id(id),
        peer: name,
        range: declared.range,
        found: None,
    };
    match provider(name, chain) {
        None => if declared.optional {
            None
        } else {
            Some(complaint)
        },
        Some((_, found)) => if range_admits(declared.range, found.version) {
            None
        } else {
            Some(ComplaintModel { found: Some(found.version), ..complaint })
        },
    }
}

/// The complaints about one package's peers.
pub open spec fn own_complaints(id: IdModel, package: PackageModel, chain: Chain) -> Complaints {
    Map::new(
        |key: (IdModel, Seq<char>)|
            key.0 == published_id(id) && package.declared_peers.contains_key(key.1)
                && complaint_about(id, package, chain, key.1) is Some,
        |key: (IdModel, Seq<char>)| complaint_about(id, package, chain, key.1)->0,
    )
}

/// The complaints about a package and everything below it, on top of those
/// there are, and the packages that are still to be entered. A package is
/// entered once, and of two complaints about the same thing the first stands.
pub open spec fn complained(
    packages: Map<IdModel, PackageModel>,
    id: IdModel,
    chain: Chain,
    open: Set<IdModel>,
    complaints: Complaints,
    depth: nat,
) -> (Set<IdModel>, Complaints)
    decreases depth, 0nat,
{
    if depth == 0 || !open.contains(id) {
        (open, complaints)
    } else {
        let deps = packages[id].dependencies;
        let longer = chain.push(deps);
        complained_below(
            packages,
            in_order::<String>(deps.dom()),
            deps,
            longer,
            open.remove(id),
            own_complaints(id, packages[id], longer).union_prefer_right(complaints),
            (depth - 1) as nat,
        )
    }
}

/// The complaints below some edges, in order.
pub open spec fn complained_below(
    packages: Map<IdModel, PackageModel>,
    names: Seq<Seq<char>>,
    deps: Map<Seq<char>, IdModel>,
    chain: Chain,
    open: Set<IdModel>,
    complaints: Complaints,
    depth: nat,
) -> (Set<IdModel>, Complaints)
    decreases depth, names.len(),
{
    if names.len() == 0 {
        (open, complaints)
    } else {
        let (middle, before) = complained_below(
            packages,
            names.drop_last(),
            deps,
            chain,
            open,
            complaints,
            depth,
        );
        complained(packages, deps[names.last()], chain, middle, before, depth)
    }
}

/// The packages that a project depends on, by the name it declares each
/// under. A workspace member is no package.
pub open spec fn provided_by(importer: ImporterModel) -> Map<Seq<char>, IdModel> {
    Map::new(
        |name: Seq<char>| importer.contains_key(name) && importer[name].resolution is Registry,
        |name: Seq<char>| importer[name].resolution->Registry_0,
    )
}

/// The complaints below some projects, in order.
pub open spec fn complained_roots(
    graph: GraphModel,
    paths: Seq<Seq<char>>,
) -> (Set<IdModel>, Complaints)
    decreases paths.len(),
{
    if paths.len() == 0 {
        (graph.packages.dom(), Map::empty())
    } else {
        let (open, complaints) = complained_roots(graph, paths.drop_last());
        let provided = provided_by(graph.importers[paths.last()]);
        complained_below(
            graph.packages,
            in_order::<String>(provided.dom()),
            provided,
            seq![provided],
            open,
            complaints,
            graph.packages.dom().len(),
        )
    }
}

/// Everything that a graph leaves to complain about.
pub open spec fn complaints_of(graph: GraphModel) -> Complaints {
    complained_roots(graph, in_order::<ImporterPath>(graph.importers.dom())).1
}

/// Complaints listed by package and peer.
pub open spec fn complaint_list(complaints: Complaints) -> Seq<ComplaintModel> {
    let keys = in_order::<(PackageId, String)>(complaints.dom());
    Seq::new(keys.len(), |i: int| complaints[keys[i]])
}

/// The packages that a project depends on.
pub fn provided(importer: &Importer) -> (packages: SortedMap<String, PackageId>)
    ensures
        packages.deep_view() == provided_by(importer.deep_view()),
{
    let ghost goal = provided_by(importer.deep_view());
    let mut packages: SortedMap<String, PackageId> = SortedMap::new();
    let n: usize = importer.dependencies.len();
    let ghost names = importer.dependencies.keys();
    assert(goal.restrict(names.take(0).to_set()) =~= Map::<Seq<char>, IdModel>::empty());
    let mut i: usize = 0;
    while i < n
        invariant
            i <= n == names.len(),
            names == importer.dependencies.keys(),
            goal == provided_by(importer.deep_view()),
            packages.deep_view() == goal.restrict(names.take(i as int).to_set()),
        decreases n - i,
    {
        match &importer.dependencies.value_at(i).resolution {
            Resolution::Registry(id) => {
                packages.insert(importer.dependencies.key_at(i).duplicate(), id.duplicate());
            },
            Resolution::Local(_) => {},
        }
        proof {
            take_one_more(names, i as int);
            assert(packages.deep_view() =~= goal.restrict(names.take(i + 1).to_set()));
        }
        i = i + 1;
    }
    assert(names.take(n as int) =~= names);
    assert(goal.restrict(names.to_set()) =~= goal);
    packages
}

/// The package as published.
pub fn published(id: &PackageId) -> (plain: PackageId)
    ensures
        plain.deep_view() == published_id(id.deep_view()),
{
    PackageId::plain(id.name.as_str(), id.version.as_str())
}

/// Add the complaints about one package's peers.
fn complain_here(
    id: &PackageId,
    package: &ResolvedPackage,
    chain: &Vec<&SortedMap<String, PackageId>>,
    complaints: &mut SortedMap<(PackageId, String), UnsatisfiedPeer>,
)
    ensures
        final(complaints).deep_view() == own_complaints(
            id.deep_view(),
            package.deep_view(),
            chain.deep_view(),
        ).union_prefer_right(old(complaints).deep_view()),
{
    let ghost here = id.deep_view();
    let ghost seen = chain.deep_view();
    let ghost model = package.deep_view();
    let ghost mine = own_complaints(here, model, seen);
    let ghost before = complaints.deep_view();
    let n: usize = package.declared_peers.len();
    let ghost names = package.declared_peers.keys();
    assert(seen.take(seen.len() as int) =~= seen);
    let ghost goal = mine.union_prefer_right(before);
    let mut i: usize = 0;
    assert(before =~= mine.restrict(
        Set::new(|key: (IdModel, Seq<char>)| names.take(0).contains(key.1)),
    ).union_prefer_right(before));
    while i < n
        invariant
            i <= n == names.len(),
            names == package.declared_peers.keys(),
            here == id.deep_view(),
            model == package.deep_view(),
            seen == chain.deep_view(),
            seen.len() == chain@.len(),
            seen.take(seen.len() as int) == seen,
            mine == own_complaints(here, model, seen),
            complaints.deep_view() == mine.restrict(
                Set::new(|key: (IdModel, Seq<char>)| names.take(i as int).contains(key.1)),
            ).union_prefer_right(before),
        decreases n - i,
    {
        let name = package.declared_peers.key_at(i);
        let declared = package.declared_peers.value_at(i);
        let ghost held = complaints.deep_view();
        let ghost complaint = complaint_about(here, model, seen, name@);
        let (wrong, found) = match provider_of(name.as_str(), chain, chain.len()) {
            None => (!declared.optional, None),
            Some((_, provider)) => if satisfies(
                provider.version.as_str(),
                declared.range.as_str(),
            ) {
                (false, None)
            } else {
                (true, Some(provider.version))
            },
        };
        assert(wrong == (complaint is Some));
        if wrong {
            let unsatisfied = UnsatisfiedPeer {
                dependent: published(id),
                peer: name.clone(),
                range: declared.range.clone(),
                found,
            };
            assert(unsatisfied.deep_view() == complaint->0);
            let key = (published(id), name.clone());
            if !complaints.contains(&key) {
                complaints.insert(key, unsatisfied);
            }
        }
        proof {
            let earlier = Set::new(
                |key: (IdModel, Seq<char>)| names.take(i as int).contains(key.1),
            );
            let now = Set::new(|key: (IdModel, Seq<char>)| names.take(i + 1).contains(key.1));
            take_one_more(names, i as int);
            assert forall|key: (IdModel, Seq<char>)| now.contains(key) <==> earlier.contains(key)
                || key.1 == name@ by {
                assert(names.take(i + 1).to_set().contains(key.1) <==> names.take(
                    i as int,
                ).to_set().contains(key.1) || key.1 == name@);
            }
            assert(complaints.deep_view() =~= mine.restrict(now).union_prefer_right(before));
        }
        i = i + 1;
    }
    proof {
        assert(names.take(n as int) =~= names);
        let all = Set::new(|key: (IdModel, Seq<char>)| names.contains(key.1));
        assert(mine.restrict(all) =~= mine) by {
            assert forall|key: (IdModel, Seq<char>)| mine.contains_key(key) implies all.contains(
                key,
            ) by {
                assert(names.to_set().contains(key.1));
            }
        }
    }
}

/// Enter one package and everything below it, complaining on the way.
fn complain<'a>(
    graph: &'a ResolvedGraph,
    id: &PackageId,
    chain: &mut Vec<&'a SortedMap<String, PackageId>>,
    visited: &mut SortedSet<PackageId>,
    complaints: &mut SortedMap<(PackageId, String), UnsatisfiedPeer>,
    Ghost(depth): Ghost<nat>,
)
    requires
        graph.packages.deep_view().dom().finite(),
        graph.packages.deep_view().dom().difference(old(visited).deep_view()).len() <= depth,
    ensures
        final(chain)@ == old(chain)@,
        (
            graph.packages.deep_view().dom().difference(final(visited).deep_view()),
            final(complaints).deep_view(),
        ) == complained(
            graph.packages.deep_view(),
            id.deep_view(),
            old(chain).deep_view(),
            graph.packages.deep_view().dom().difference(old(visited).deep_view()),
            old(complaints).deep_view(),
            depth,
        ),
        old(visited).deep_view().subset_of(final(visited).deep_view()),
    decreases depth, 0nat,
{
    let ghost packages = graph.packages.deep_view();
    let ghost open = packages.dom().difference(visited.deep_view());
    let ghost here = id.deep_view();
    let ghost seen = chain.deep_view();
    let ghost links = chain@;
    let package: &'a ResolvedPackage = match graph.packages.get(id) {
        Some(package) => package,
        None => {
            assert(!open.contains(here));
            return;
        },
    };
    let ghost entered = visited.deep_view();
    if !visited.insert(id.duplicate()) {
        assert(visited.deep_view() =~= entered);
        assert(!open.contains(here));
        return;
    }
    let ghost left = packages.dom().difference(visited.deep_view());
    assert(open.contains(here));
    assert(left =~= open.remove(here));
    assert(depth > 0);
    let ghost deps = package.dependencies.deep_view();
    let ghost longer = seen.push(deps);
    chain.push(&package.dependencies);
    assert(chain.deep_view() =~= longer);
    complain_here(id, package, &*chain, complaints);
    complain_below(
        graph,
        &package.dependencies,
        chain,
        visited,
        complaints,
        Ghost((depth - 1) as nat),
    );
    chain.pop();
    assert(chain@ =~= links);
}

/// Enter the packages at the far end of some edges, in order.
fn complain_below<'a>(
    graph: &'a ResolvedGraph,
    edges: &SortedMap<String, PackageId>,
    chain: &mut Vec<&'a SortedMap<String, PackageId>>,
    visited: &mut SortedSet<PackageId>,
    complaints: &mut SortedMap<(PackageId, String), UnsatisfiedPeer>,
    Ghost(depth): Ghost<nat>,
)
    requires
        graph.packages.deep_view().dom().finite(),
        graph.packages.deep_view().dom().difference(old(visited).deep_view()).len() <= depth,
    ensures
        final(chain)@ == old(chain)@,
        (
            graph.packages.deep_view().dom().difference(final(visited).deep_view()),
            final(complaints).deep_view(),
        ) == complained_below(
            graph.packages.deep_view(),
            in_order::<String>(edges.deep_view().dom()),
            edges.deep_view(),
            old(chain).deep_view(),
            graph.packages.deep_view().dom().difference(old(visited).deep_view()),
            old(complaints).deep_view(),
            depth,
        ),
        old(visited).deep_view().subset_of(final(visited).deep_view()),
    decreases depth, 1nat,
{
    let ghost packages = graph.packages.deep_view();
    let ghost open = packages.dom().difference(visited.deep_view());
    let ghost start = complaints.deep_view();
    let ghost links = chain@;
    let ghost seen = chain.deep_view();
    let n: usize = edges.len();
    let ghost names = edges.keys();
    let mut i: usize = 0;
    while i < n
        invariant
            i <= n == names.len(),
            names == edges.keys(),
            packages == graph.packages.deep_view(),
            packages.dom().finite(),
            chain@ == links,
            chain.deep_view() == seen,
            old(visited).deep_view().subset_of(visited.deep_view()),
            packages.dom().difference(visited.deep_view()).len() <= depth,
            (packages.dom().difference(visited.deep_view()), complaints.deep_view())
                == complained_below(
                packages,
                names.take(i as int),
                edges.deep_view(),
                seen,
                open,
                start,
                depth,
            ),
        decreases n - i,
    {
        let target = edges.value_at(i);
        assert(names.take(i + 1).drop_last() =~= names.take(i as int));
        assert(names.take(i + 1).last() == names[i as int]);
        let ghost before = packages.dom().difference(visited.deep_view());
        complain(graph, target, chain, visited, complaints, Ghost(depth));
        proof {
            let after = packages.dom().difference(visited.deep_view());
            assert(after.subset_of(before));
            vstd::set_lib::lemma_len_subset(after, before);
        }
        i = i + 1;
    }
    assert(names.take(n as int) =~= names);
}

/// Every required peer that a finished graph leaves unanswered: a function of
/// the graph alone, so that a warning is the same whether the graph was just
/// resolved or read back.
pub fn unsatisfied_peers(graph: &ResolvedGraph) -> (complaints: Vec<UnsatisfiedPeer>)
    ensures
        complaints.deep_view() == complaint_list(complaints_of(graph.deep_view())),
{
    let ghost model = graph.deep_view();
    let size: usize = graph.packages.len();
    let mut found: SortedMap<(PackageId, String), UnsatisfiedPeer> = SortedMap::new();
    let mut visited: SortedSet<PackageId> = SortedSet::new();
    let n: usize = graph.importers.len();
    let ghost paths = graph.importers.keys();
    assert(model.packages.dom().difference(visited.deep_view()) =~= model.packages.dom());
    let mut i: usize = 0;
    while i < n
        invariant
            i <= n == paths.len(),
            paths == graph.importers.keys(),
            model == graph.deep_view(),
            model.packages.dom().finite(),
            (model.packages.dom().difference(visited.deep_view()), found.deep_view())
                == complained_roots(model, paths.take(i as int)),
        decreases n - i,
    {
        let importer = graph.importers.value_at(i);
        let frame = provided(importer);
        assert(paths.take(i + 1).drop_last() =~= paths.take(i as int));
        assert(paths.take(i + 1).last() == paths[i as int]);
        let mut chain: Vec<&SortedMap<String, PackageId>> = Vec::new();
        chain.push(&frame);
        assert(chain.deep_view() =~= seq![frame.deep_view()]);
        proof {
            let open = model.packages.dom().difference(visited.deep_view());
            vstd::set_lib::lemma_len_subset(open, model.packages.dom());
        }
        complain_below(
            graph,
            &frame,
            &mut chain,
            &mut visited,
            &mut found,
            Ghost(model.packages.dom().len()),
        );
        i = i + 1;
    }
    assert(paths.take(n as int) =~= paths);
    let mut complaints: Vec<UnsatisfiedPeer> = Vec::new();
    let m: usize = found.len();
    let ghost keys = found.keys();
    let mut j: usize = 0;
    while j < m
        invariant
            j <= m == keys.len(),
            keys == found.keys(),
            complaints@.len() == j,
            forall|k: int|
                0 <= k < j ==> (#[trigger] complaints@[k]).deep_view()
                    == found.deep_view()[keys[k]],
        decreases m - j,
    {
        complaints.push(found.value_at(j).duplicate());
        j = j + 1;
    }
    assert(complaints.deep_view() =~= complaint_list(complaints_of(model)));
    complaints
}

} // verus!
