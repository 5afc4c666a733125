//! Which copy of which package answers each peer.
//!
//! A pass over a finished graph that fetches nothing: a peer is satisfied from
//! what is already resolved, so it can never cause a version to be selected.

use vstd::prelude::*;
use vstd::string::*;
use crate::graph::{depends, PackageModel, ResolvedGraph, ResolvedPackage};
use crate::order::Duplicate;
use crate::package_id::{IdModel, PackageId};
use crate::sorted::{take_one_more, SortedMap, SortedSet};

verus! {

/// A way down from one package to another, every step of it a dependency of
/// a package that the graph holds.
pub open spec fn leads(packages: Map<IdModel, PackageModel>, route: Seq<IdModel>) -> bool {
    &&& route.len() > 0
    &&& forall|i: int|
        0 <= i < route.len() - 1 ==> depends(packages, #[trigger] route[i], route[i + 1])
}

/// Can something in a package's subtree, itself included, ask about a peer of
/// this name?
pub open spec fn needs(packages: Map<IdModel, PackageModel>, id: IdModel, name: Seq<char>) -> bool {
    exists|route: Seq<IdModel>| #[trigger]
        leads(packages, route) && route[0] == id && packages.contains_key(route.last())
            && packages[route.last()].declared_peers.contains_key(name)
}

/// The peer names that each package's subtree can ask about.
pub open spec fn names_needed(packages: Map<IdModel, PackageModel>) -> Map<IdModel, Set<Seq<char>>> {
    Map::new(
        |id: IdModel| packages.contains_key(id),
        |id: IdModel| Set::new(|name: Seq<char>| needs(packages, id, name)),
    )
}

proof fn own_peers_are_needed(packages: Map<IdModel, PackageModel>, id: IdModel, name: Seq<char>)
    requires
        packages.contains_key(id),
        packages[id].declared_peers.contains_key(name),
    ensures
        needs(packages, id, name),
{
    let route = seq![id];
    assert(leads(packages, route));
}

proof fn needs_climb(
    packages: Map<IdModel, PackageModel>,
    from: IdModel,
    to: IdModel,
    name: Seq<char>,
)
    requires
        depends(packages, from, to),
        needs(packages, to, name),
    ensures
        needs(packages, from, name),
{
    let route = choose|route: Seq<IdModel>| #[trigger]
        leads(packages, route) && route[0] == to && packages.contains_key(route.last())
            && packages[route.last()].declared_peers.contains_key(name);
    let longer = seq![from] + route;
    assert forall|i: int| 0 <= i < longer.len() - 1 implies depends(
        packages,
        #[trigger] longer[i],
        longer[i + 1],
    ) by {
        if i > 0 {
            assert(depends(packages, route[i - 1], route[i - 1 + 1]));
        }
    }
    assert(leads(packages, longer));
    assert(longer.last() == route.last());
}

/// Sets that hold each package's own peers, and all that its dependencies'
/// sets hold, hold everything that is needed.
proof fn closed_sets_hold_needs(
    packages: Map<IdModel, PackageModel>,
    held: Map<IdModel, Set<Seq<char>>>,
    route: Seq<IdModel>,
    name: Seq<char>,
)
    requires
        leads(packages, route),
        packages.contains_key(route.last()),
        packages[route.last()].declared_peers.contains_key(name),
        held.dom() == packages.dom(),
        forall|id: IdModel, peer: Seq<char>|
            packages.contains_key(id) && #[trigger] packages[id].declared_peers.contains_key(peer)
                ==> held[id].contains(peer),
        forall|from: IdModel, to: IdModel, peer: Seq<char>| #[trigger]
            depends(packages, from, to) && packages.contains_key(to) && #[trigger] held[to].contains(
                peer,
            ) ==> held[from].contains(peer),
    ensures
        held[route[0]].contains(name),
        packages.contains_key(route[0]),
    decreases route.len(),
{
    if route.len() > 1 {
        let rest = route.drop_first();
        assert forall|i: int| 0 <= i < rest.len() - 1 implies depends(
            packages,
            #[trigger] rest[i],
            rest[i + 1],
        ) by {
            assert(depends(packages, route[i + 1], route[i + 1 + 1]));
        }
        assert(rest.last() == route.last());
        closed_sets_hold_needs(packages, held, rest, name);
        let first: int = 0;
        assert(depends(packages, route[first], route[first + 1]));
        assert(held[rest[0]].contains(name));
    }
}

/// Does any package declare a peer of this name?
spec fn is_peer_name(packages: Map<IdModel, PackageModel>, name: Seq<char>) -> bool {
    exists|id: IdModel|
        packages.contains_key(id) && #[trigger] packages[id].declared_peers.contains_key(name)
}

/// The pairs of a package and a peer name that are still missing from some
/// sets.
spec fn missing(
    packages: Map<IdModel, PackageModel>,
    held: Map<IdModel, Set<Seq<char>>>,
) -> Set<(IdModel, Seq<char>)> {
    Set::new(
        |pair: (IdModel, Seq<char>)|
            packages.contains_key(pair.0) && is_peer_name(packages, pair.1)
                && !held[pair.0].contains(pair.1),
    )
}

proof fn peer_names_are_finite(packages: Map<IdModel, PackageModel>)
    requires
        packages.dom().finite(),
        forall|id: IdModel| #[trigger]
            packages.contains_key(id) ==> packages[id].declared_peers.dom().finite(),
    ensures
        Set::new(|name: Seq<char>| is_peer_name(packages, name)).finite(),
    decreases packages.dom().len(),
{
    let all = Set::new(|name: Seq<char>| is_peer_name(packages, name));
    if packages.dom().len() == 0 {
        assert(all =~= Set::empty()) by {
            assert forall|name: Seq<char>| !all.contains(name) by {
                if all.contains(name) {
                    let id = choose|id: IdModel|
                        packages.contains_key(id)
                            && #[trigger] packages[id].declared_peers.contains_key(name);
                    assert(packages.dom().contains(id));
                }
            }
        }
    } else {
        let one = packages.dom().choose();
        let rest = packages.remove(one);
        assert(rest.dom() =~= packages.dom().remove(one));
        peer_names_are_finite(rest);
        let others = Set::new(|name: Seq<char>| is_peer_name(rest, name));
        assert(packages.contains_key(one));
        let both = others.union(packages[one].declared_peers.dom());
        assert(all =~= both) by {
            assert forall|name: Seq<char>| all.contains(name) == both.contains(name) by {
                if all.contains(name) {
                    let id = choose|id: IdModel|
                        packages.contains_key(id)
                            && #[trigger] packages[id].declared_peers.contains_key(name);
                    if id != one {
                        assert(rest.contains_key(id) && rest[id].declared_peers.contains_key(name));
                    }
                }
                if others.contains(name) {
                    let id = choose|id: IdModel|
                        rest.contains_key(id) && #[trigger] rest[id].declared_peers.contains_key(
                            name,
                        );
                    assert(packages[id].declared_peers.contains_key(name));
                }
                if packages[one].declared_peers.contains_key(name) {
                    assert(all.contains(name));
                }
            }
        }
    }
}

/// All pairs of a member of one finite set and a member of another.
pub proof fn pairs_are_finite<A, B>(left: Set<A>, right: Set<B>)
    requires
        left.finite(),
        right.finite(),
    ensures
        Set::new(|pair: (A, B)| left.contains(pair.0) && right.contains(pair.1)).finite(),
    decreases left.len(),
{
    let all = Set::new(|pair: (A, B)| left.contains(pair.0) && right.contains(pair.1));
    if left.len() == 0 {
        assert(all =~= Set::empty());
    } else {
        let one = left.choose();
        let rest = left.remove(one);
        pairs_are_finite(rest, right);
        let others = Set::new(|pair: (A, B)| rest.contains(pair.0) && right.contains(pair.1));
        let row = |b: B| (one, b);
        right.lemma_map_finite(row);
        let here = right.map(row);
        assert(all =~= others.union(here)) by {
            assert forall|pair: (A, B)| all.contains(pair) == others.union(here).contains(pair) by {
                if all.contains(pair) && pair.0 == one {
                    assert(row(pair.1) == pair);
                    assert(here.contains(pair));
                }
            }
        }
    }
}

proof fn missing_is_finite(
    packages: Map<IdModel, PackageModel>,
    held: Map<IdModel, Set<Seq<char>>>,
)
    requires
        packages.dom().finite(),
        forall|id: IdModel| #[trigger]
            packages.contains_key(id) ==> packages[id].declared_peers.dom().finite(),
    ensures
        missing(packages, held).finite(),
{
    peer_names_are_finite(packages);
    let names = Set::new(|name: Seq<char>| is_peer_name(packages, name));
    pairs_are_finite(packages.dom(), names);
    let all = Set::new(
        |pair: (IdModel, Seq<char>)| packages.dom().contains(pair.0) && names.contains(pair.1),
    );
    assert(missing(packages, held).subset_of(all));
    vstd::set_lib::lemma_set_subset_finite(all, missing(packages, held));
}

/// Do a package's set and those of its dependencies agree?
spec fn settled_at(
    packages: Map<IdModel, PackageModel>,
    held: Map<IdModel, Set<Seq<char>>>,
    id: IdModel,
) -> bool {
    forall|name: Seq<char>, peer: Seq<char>| #[trigger]
        packages[id].dependencies.contains_key(name) && packages.contains_key(
            packages[id].dependencies[name],
        ) && #[trigger] held[packages[id].dependencies[name]].contains(peer) ==> held[id].contains(
            peer,
        )
}

/// A set that grows by names that are needed leaves fewer missing.
proof fn growth_leaves_less_missing(
    packages: Map<IdModel, PackageModel>,
    held: Map<IdModel, Set<Seq<char>>>,
    here: IdModel,
    wide: Set<Seq<char>>,
)
    requires
        packages.dom().finite(),
        forall|id: IdModel| #[trigger]
            packages.contains_key(id) ==> packages[id].declared_peers.dom().finite(),
        packages.contains_key(here),
        held.contains_key(here),
        held[here].subset_of(wide),
        held[here] != wide,
        forall|peer: Seq<char>| wide.contains(peer) ==> needs(packages, here, peer),
    ensures
        missing(packages, held.insert(here, wide)).finite(),
        missing(packages, held.insert(here, wide)).len() < missing(packages, held).len(),
{
    let narrow = held[here];
    assert(exists|peer: Seq<char>|
        #![trigger wide.contains(peer)]
        wide.contains(peer) && !narrow.contains(peer)) by {
        if forall|peer: Seq<char>| #[trigger] wide.contains(peer) ==> narrow.contains(peer) {
            assert(wide =~= narrow);
        }
    }
    let extra = choose|peer: Seq<char>|
        #![trigger wide.contains(peer)]
        wide.contains(peer) && !narrow.contains(peer);
    assert(wide.contains(extra) && !narrow.contains(extra));
    let next = held.insert(here, wide);
    let less = missing(packages, next);
    let more = missing(packages, held);
    assert(needs(packages, here, extra));
    let route = choose|route: Seq<IdModel>| #[trigger]
        leads(packages, route) && route[0] == here && packages.contains_key(route.last())
            && packages[route.last()].declared_peers.contains_key(extra);
    assert(packages[route.last()].declared_peers.contains_key(extra));
    assert(is_peer_name(packages, extra));
    assert(more.contains((here, extra)));
    assert(!less.contains((here, extra)));
    assert forall|pair: (IdModel, Seq<char>)| less.contains(pair) implies more.remove(
        (here, extra),
    ).contains(pair) by {
        assert(held[pair.0].contains(pair.1) ==> next[pair.0].contains(pair.1));
    }
    missing_is_finite(packages, held);
    missing_is_finite(packages, next);
    vstd::set_lib::lemma_len_subset(less, more.remove((here, extra)));
}

/// Every name in one set added to another.
fn add_all(into: &mut SortedSet<String>, from: &SortedSet<String>)
    ensures
        final(into).deep_view() == old(into).deep_view().union(from.deep_view()),
{
    let n: usize = from.len();
    let ghost names = from.keys();
    let ghost start = into.deep_view();
    assert(start.union(names.take(0).to_set()) =~= start);
    let mut i: usize = 0;
    while i < n
        invariant
            i <= n == names.len(),
            names == from.keys(),
            into.deep_view() == start.union(names.take(i as int).to_set()),
        decreases n - i,
    {
        into.insert(from.key_at(i).duplicate());
        proof {
            take_one_more(names, i as int);
            assert(into.deep_view() =~= start.union(names.take(i + 1).to_set()));
        }
        i = i + 1;
    }
    assert(names.take(n as int) =~= names);
}

/// A package's set with its dependencies' sets added.
fn grown_set(
    package: &ResolvedPackage,
    own: &SortedSet<String>,
    needed: &SortedMap<PackageId, SortedSet<String>>,
) -> (grown: SortedSet<String>)
    ensures
        forall|peer: Seq<char>| #[trigger]
            grown.deep_view().contains(peer) <==> {
                ||| own.deep_view().contains(peer)
                ||| exists|name: Seq<char>| #[trigger]
                    package.dependencies.deep_view().contains_key(name)
                        && needed.deep_view().contains_key(package.dependencies.deep_view()[name])
                        && needed.deep_view()[package.dependencies.deep_view()[name]].contains(peer)
            },
{
    let mut grown = own.duplicate();
    let ghost deps = package.dependencies.deep_view();
    let ghost held = needed.deep_view();
    let n: usize = package.dependencies.len();
    let ghost names = package.dependencies.keys();
    let mut i: usize = 0;
    while i < n
        invariant
            i <= n == names.len(),
            names == package.dependencies.keys(),
            names.to_set() == deps.dom(),
            deps == package.dependencies.deep_view(),
            held == needed.deep_view(),
            forall|peer: Seq<char>| #[trigger]
                grown.deep_view().contains(peer) <==> {
                    ||| own.deep_view().contains(peer)
                    ||| exists|k: int|
                        0 <= k < i && held.contains_key(deps[#[trigger] names[k]])
                            && held[deps[names[k]]].contains(peer)
                },
        decreases n - i,
    {
        let ghost before = grown.deep_view();
        let target = package.dependencies.value_at(i);
        match needed.get(target) {
            Some(below) => {
                add_all(&mut grown, below);
            },
            None => {},
        }
        proof {
            assert forall|peer: Seq<char>| #[trigger]
                grown.deep_view().contains(peer) <==> {
                    ||| own.deep_view().contains(peer)
                    ||| exists|k: int|
                        0 <= k < i + 1 && held.contains_key(deps[#[trigger] names[k]])
                            && held[deps[names[k]]].contains(peer)
                } by {
                if grown.deep_view().contains(peer) && !before.contains(peer) {
                    assert(held.contains_key(deps[names[i as int]]));
                }
                if exists|k: int|
                    0 <= k < i + 1 && held.contains_key(deps[#[trigger] names[k]])
                        && held[deps[names[k]]].contains(peer) {
                    let k = choose|k: int|
                        0 <= k < i + 1 && held.contains_key(deps[#[trigger] names[k]])
                            && held[deps[names[k]]].contains(peer);
                    if k < i {
                        assert(before.contains(peer));
                    }
                }
                if before.contains(peer) {
                    assert(grown.deep_view().contains(peer));
                }
            }
        }
        i = i + 1;
    }
    proof {
        assert forall|peer: Seq<char>| #[trigger]
            grown.deep_view().contains(peer) <==> {
                ||| own.deep_view().contains(peer)
                ||| exists|name: Seq<char>| #[trigger]
                    deps.contains_key(name) && held.contains_key(deps[name])
                        && held[deps[name]].contains(peer)
            } by {
            if exists|k: int|
                0 <= k < n && held.contains_key(deps[#[trigger] names[k]])
                    && held[deps[names[k]]].contains(peer) {
                let k = choose|k: int|
                    0 <= k < n && held.contains_key(deps[#[trigger] names[k]])
                        && held[deps[names[k]]].contains(peer);
                assert(names.to_set().contains(names[k]));
                assert(deps.contains_key(names[k]));
            }
            if exists|name: Seq<char>| #[trigger]
                deps.contains_key(name) && held.contains_key(deps[name])
                    && held[deps[name]].contains(peer) {
                let name = choose|name: Seq<char>| #[trigger]
                    deps.contains_key(name) && held.contains_key(deps[name])
                        && held[deps[name]].contains(peer);
                assert(names.to_set().contains(name));
                let k = names.index_of(name);
                assert(held.contains_key(deps[names[k]]));
            }
        }
    }
    grown
}

/// Every peer name that each package's subtree can ask about along a
/// dependency edge, itself included: the least sets that hold each package's
/// own peers and all that its dependencies' sets hold.
pub fn peer_names_needed(graph: &ResolvedGraph) -> (needed: SortedMap<PackageId, SortedSet<String>>)
    ensures
        needed.deep_view() == names_needed(graph.packages.deep_view()),
{
    let ghost packages = graph.packages.deep_view();
    let n: usize = graph.packages.len();
    let ghost ids = graph.packages.keys();
    let mut needed: SortedMap<PackageId, SortedSet<String>> = SortedMap::new();
    let mut i: usize = 0;
    while i < n
        invariant
            i <= n == ids.len(),
            ids == graph.packages.keys(),
            packages == graph.packages.deep_view(),
            needed.deep_view().dom() == ids.take(i as int).to_set(),
            forall|j: int|
                0 <= j < i ==> packages[#[trigger] ids[j]].declared_peers.dom().finite(),
            forall|id: IdModel| #[trigger]
                needed.deep_view().contains_key(id) ==> needed.deep_view()[id]
                    == packages[id].declared_peers.dom(),
        decreases n - i,
    {
        let package = graph.packages.value_at(i);
        let m: usize = package.declared_peers.len();
        let ghost peers = package.declared_peers.keys();
        let mut own: SortedSet<String> = SortedSet::new();
        assert(peers.take(0).to_set() =~= Set::<Seq<char>>::empty());
        let mut j: usize = 0;
        while j < m
            invariant
                j <= m == peers.len(),
                peers == package.declared_peers.keys(),
                own.deep_view() == peers.take(j as int).to_set(),
            decreases m - j,
        {
            own.insert(package.declared_peers.key_at(j).duplicate());
            proof {
                take_one_more(peers, j as int);
            }
            j = j + 1;
        }
        assert(peers.take(m as int) =~= peers);
        needed.insert(graph.packages.key_at(i).duplicate(), own);
        proof {
            take_one_more(ids, i as int);
            assert(needed.deep_view().dom() =~= ids.take(i + 1).to_set());
        }
        i = i + 1;
    }
    proof {
        assert(ids.take(n as int) =~= ids);
        assert forall|id: IdModel| #[trigger] packages.contains_key(id) implies
            packages[id].declared_peers.dom().finite() by {
            assert(ids.to_set().contains(id));
            let k = ids.index_of(id);
            assert(packages[ids[k]].declared_peers.dom().finite());
        }
        assert forall|id: IdModel, peer: Seq<char>|
            packages.contains_key(id) && #[trigger] needed.deep_view()[id].contains(
                peer,
            ) implies needs(packages, id, peer) by {
            assert(needed.deep_view().contains_key(id));
            own_peers_are_needed(packages, id, peer);
        }
    }
    loop
        invariant
            n == ids.len(),
            ids == graph.packages.keys(),
            ids.to_set() == packages.dom(),
            packages == graph.packages.deep_view(),
            packages.dom().finite(),
            forall|id: IdModel| #[trigger]
                packages.contains_key(id) ==> packages[id].declared_peers.dom().finite(),
            needed.deep_view().dom() == packages.dom(),
            forall|id: IdModel, peer: Seq<char>|
                packages.contains_key(id) && #[trigger] needed.deep_view()[id].contains(peer)
                    ==> needs(packages, id, peer),
            forall|id: IdModel, peer: Seq<char>|
                packages.contains_key(id)
                    && #[trigger] packages[id].declared_peers.contains_key(peer)
                    ==> needed.deep_view()[id].contains(peer),
        decreases missing(packages, needed.deep_view()).len(),
    {
        let ghost start = needed.deep_view();
        proof {
            missing_is_finite(packages, start);
        }
        let mut changed = false;
        let mut k: usize = 0;
        while k < n
            invariant
                k <= n == ids.len(),
                ids == graph.packages.keys(),
                ids.to_set() == packages.dom(),
                packages == graph.packages.deep_view(),
                packages.dom().finite(),
                forall|id: IdModel| #[trigger]
                    packages.contains_key(id) ==> packages[id].declared_peers.dom().finite(),
                needed.deep_view().dom() == packages.dom(),
                forall|id: IdModel, peer: Seq<char>|
                    packages.contains_key(id) && #[trigger] needed.deep_view()[id].contains(peer)
                        ==> needs(packages, id, peer),
                forall|id: IdModel, peer: Seq<char>|
                    packages.contains_key(id)
                        && #[trigger] packages[id].declared_peers.contains_key(peer)
                        ==> needed.deep_view()[id].contains(peer),
                !changed ==> needed.deep_view() == start,
                !changed ==> forall|j: int|
                    0 <= j < k ==> settled_at(packages, start, #[trigger] ids[j]),
                changed ==> missing(packages, needed.deep_view()).len() < missing(
                    packages,
                    start,
                ).len(),
                missing(packages, needed.deep_view()).finite(),
            decreases n - k,
        {
            let id = graph.packages.key_at(k);
            let package = graph.packages.value_at(k);
            let ghost here = id.deep_view();
            let ghost held = needed.deep_view();
            let own = match needed.get(id) {
                Some(own) => own,
                None => {
                    return needed;
                },
            };
            let grown = grown_set(package, own, &needed);
            let before: usize = own.len();
            let after: usize = grown.len();
            let ghost wide = grown.deep_view();
            let ghost narrow = held[here];
            assert(narrow.subset_of(wide)) by {
                assert forall|peer: Seq<char>| narrow.contains(peer) implies wide.contains(peer) by {
                    assert(own.deep_view().contains(peer));
                }
            }
            if after != before {
                proof {
                    assert forall|peer: Seq<char>| wide.contains(peer) implies needs(
                        packages,
                        here,
                        peer,
                    ) by {
                        if !narrow.contains(peer) {
                            let name = choose|name: Seq<char>| #[trigger]
                                packages[here].dependencies.contains_key(name)
                                    && held.contains_key(packages[here].dependencies[name])
                                    && held[packages[here].dependencies[name]].contains(peer);
                            let to = packages[here].dependencies[name];
                            assert(depends(packages, here, to));
                            assert(needs(packages, to, peer));
                            needs_climb(packages, here, to, peer);
                        } else {
                            assert(held[here].contains(peer));
                        }
                    }
                    growth_leaves_less_missing(packages, held, here, wide);
                }
                needed.insert(id.duplicate(), grown);
                assert(needed.deep_view().dom() =~= packages.dom());
                changed = true;
            } else {
                proof {
                    vstd::set_lib::lemma_subset_equality(narrow, wide);
                    if !changed {
                        assert(settled_at(packages, start, ids[k as int])) by {
                            assert forall|name: Seq<char>, peer: Seq<char>| #[trigger]
                                packages[here].dependencies.contains_key(name)
                                    && packages.contains_key(packages[here].dependencies[name])
                                    && #[trigger] start[packages[here].dependencies[name]].contains(
                                    peer,
                                ) implies start[here].contains(peer) by {
                                assert(wide.contains(peer));
                            }
                        }
                    }
                }
            }
            k = k + 1;
        }
        if !changed {
            proof {
                let held = needed.deep_view();
                assert forall|from: IdModel, to: IdModel, peer: Seq<char>| #[trigger]
                    depends(packages, from, to) && packages.contains_key(to)
                        && #[trigger] held[to].contains(peer) implies held[from].contains(peer) by {
                    assert(ids.to_set().contains(from));
                    let j = ids.index_of(from);
                    assert(settled_at(packages, start, ids[j]));
                    let name = choose|name: Seq<char>| #[trigger]
                        packages[from].dependencies.contains_key(name)
                            && packages[from].dependencies[name] == to;
                    assert(packages[from].dependencies.contains_key(name));
                }
                assert forall|id: IdModel| #[trigger]
                    packages.contains_key(id) implies held[id] == names_needed(packages)[id] by {
                    assert forall|peer: Seq<char>| needs(packages, id, peer) implies #[trigger] held[id].contains(
                        peer,
                    ) by {
                        let route = choose|route: Seq<IdModel>| #[trigger]
                            leads(packages, route) && route[0] == id && packages.contains_key(
                                route.last(),
                            ) && packages[route.last()].declared_peers.contains_key(peer);
                        closed_sets_hold_needs(packages, held, route, peer);
                    }
                    assert(held[id] =~= names_needed(packages)[id]);
                }
                assert(held =~= names_needed(packages));
            }
            return needed;
        }
    }
}

} // verus!
