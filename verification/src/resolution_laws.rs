//! Whether a resolution is the right one: every package in it is what the
//! registry published, with every dependency that it declares, each at the
//! highest version that is asked for.

use vstd::prelude::*;
use crate::graph::{DependencyModel, GraphModel, PackageModel, ResolutionModel};
use crate::importer::{path_between, ImporterPath};
use crate::order::{lex_before, lex_total, lex_transitive};
use crate::package_id::{plain_id, IdModel};
use crate::range::{is_pick, precedence, range_admits, range_parses, version_parses, Version};
use crate::registry::{
    dist_integrity_reads, dist_reading, is_writable, metadata_bins, published_versions,
    MetadataModel, PackumentModel,
};
use crate::sorted::{in_order, in_order_lists};
use crate::specifier::{asked_reading, chosen, edges_of, AskedModel, EdgeModel, ResolveFault};
use crate::walk::{
    blank_walk, graph_of, is_written, pendings_of, recorded, request_for, resolves_to,
    seeded_by_names, seeded_by_paths, seeded_walk, seeded_with, visited, walked, Book,
    DependentModel, PendingModel, Roots, WalkModel,
};
use crate::walk_laws::resolved_graphs_are_closed;

verus! {

/// A list that admits something has a pick.
proof fn pick_exists(range: Seq<char>, versions: Seq<Seq<char>>, k: int)
    requires
        0 <= k < versions.len(),
        range_admits(range, versions[k]),
    ensures
        exists|i: int| is_pick(range, versions, i),
    decreases versions.len(),
{
    let rest = versions.drop_last();
    let n = versions.len() - 1;
    let last = versions[n];
    if exists|j: int| 0 <= j < n && range_admits(range, #[trigger] versions[j]) {
        let j = choose|j: int| 0 <= j < n && range_admits(range, #[trigger] versions[j]);
        assert(rest[j] == versions[j]);
        pick_exists(range, rest, j);
        let p = choose|i: int| is_pick(range, rest, i);
        let top = precedence(versions[p]);
        assert(rest[p] == versions[p]);
        if range_admits(range, last) && !lex_before(precedence(last), top) {
            assert forall|j: int|
                0 <= j < n && range_admits(range, #[trigger] versions[j]) implies !lex_before(
                precedence(last),
                precedence(versions[j]),
            ) by {
                assert(rest[j] == versions[j]);
                let other = precedence(versions[j]);
                if lex_before(precedence(last), other) {
                    lex_total(top, other);
                    if lex_before(other, top) {
                        lex_transitive(precedence(last), other, top);
                    }
                }
            }
            assert(is_pick(range, versions, n));
        } else {
            assert forall|j: int|
                0 <= j < p && range_admits(range, #[trigger] versions[j]) implies !lex_before(
                precedence(versions[p]),
                precedence(versions[j]),
            ) by {
                assert(rest[j] == versions[j]);
            }
            assert forall|j: int|
                p < j < versions.len() && range_admits(
                    range,
                    #[trigger] versions[j],
                ) implies lex_before(precedence(versions[j]), precedence(versions[p])) by {
                if j < n {
                    assert(rest[j] == versions[j]);
                }
            }
            assert(is_pick(range, versions, p));
        }
    } else {
        assert(k == n);
        assert(is_pick(range, versions, n));
    }
}

/// Is this a version that a packument publishes and a range admits?
pub open spec fn is_candidate(
    packument: PackumentModel,
    range: Seq<char>,
    version: Seq<char>,
) -> bool {
    packument.versions.contains_key(version) && version_parses(version) && range_admits(
        range,
        version,
    )
}

/// Is this the version that a range or a tag asks for: the highest that is
/// published and admitted, or the one that is tagged?
pub open spec fn is_what_is_asked(
    packument: PackumentModel,
    range: Seq<char>,
    version: Seq<char>,
) -> bool {
    if range_parses(range) {
        &&& is_candidate(packument, range, version)
        &&& forall|other: Seq<char>| #[trigger]
            is_candidate(packument, range, other) ==> !lex_before(
                precedence(version),
                precedence(other),
            )
    } else {
        &&& packument.dist_tags.contains_key(range)
        &&& packument.dist_tags[range] == version
        &&& packument.versions.contains_key(version)
    }
}

/// A range selects the highest version that is published and that it admits,
/// and a tag the version that it is at. Nothing is selected only where there is
/// no such version.
pub proof fn the_highest_version_is_chosen(
    packument: PackumentModel,
    name: Seq<char>,
    range: Seq<char>,
)
    requires
        is_writable(packument),
    ensures
        match chosen(packument, name, range) {
            Ok(version) => is_what_is_asked(packument, range, version),
            Err(_) => forall|version: Seq<char>| !is_what_is_asked(packument, range, version),
        },
        range_parses(range) ==> (chosen(packument, name, range) is Err <==> forall|
            version: Seq<char>,
        | !is_candidate(packument, range, version)),
{
    let published = packument.versions.dom();
    let wanted = published.filter(|v: Seq<char>| version_parses(v));
    let available = published_versions(published);
    published.lemma_len_filter(|v: Seq<char>| version_parses(v));
    in_order_lists::<Version>(wanted);
    if range_parses(range) {
        assert forall|version: Seq<char>| #[trigger] is_candidate(
            packument,
            range,
            version,
        ) implies available.contains(version) && range_admits(range, version) by {
            assert(wanted.contains(version));
            assert(available.to_set().contains(version));
        }
        if exists|i: int| is_pick(range, available, i) {
            let i = choose|i: int| is_pick(range, available, i);
            let version = available[i];
            assert(available.to_set().contains(version));
            assert(wanted.contains(version));
            assert(is_candidate(packument, range, version));
            assert forall|other: Seq<char>| #[trigger]
                is_candidate(packument, range, other) implies !lex_before(
                precedence(version),
                precedence(other),
            ) by {
                let j = available.index_of(other);
                assert(available[j] == other);
                if j > i {
                    if lex_before(precedence(version), precedence(other)) {
                        lex_transitive(
                            precedence(version),
                            precedence(other),
                            precedence(version),
                        );
                        crate::order::lex_irreflexive(precedence(version));
                    }
                } else if j == i {
                    crate::order::lex_irreflexive(precedence(version));
                }
            }
        } else {
            assert forall|version: Seq<char>| !is_candidate(packument, range, version) by {
                if is_candidate(packument, range, version) {
                    let j = available.index_of(version);
                    pick_exists(range, available, j);
                }
            }
        }
    }
}

/// Does a registry's answer lead from what is declared under a name to a
/// package?
pub open spec fn is_answered_by(
    book: Book,
    name: Seq<char>,
    specifier: Seq<char>,
    id: IdModel,
) -> bool {
    &&& asked_reading(name, specifier) is Ok
    &&& {
        let asked = asked_reading(name, specifier)->Ok_0;
        &&& book.contains_key(request_for(asked))
        &&& book[request_for(asked)] is Ok
        &&& is_what_is_asked(book[request_for(asked)]->Ok_0, asked.range, id.version)
        &&& id == plain_id(asked.name, id.version)
    }
}

/// Does a version declare a dependency: as an optional one where it is listed
/// as that, whatever else it is listed as?
pub open spec fn declares(
    metadata: MetadataModel,
    name: Seq<char>,
    specifier: Seq<char>,
    optional: bool,
) -> bool {
    if metadata.optional_dependencies.contains_key(name) {
        optional && specifier == metadata.optional_dependencies[name]
    } else {
        metadata.dependencies.contains_key(name) && !optional && specifier
            == metadata.dependencies[name]
    }
}

/// Does a package hold what a version of it was published with?
pub open spec fn is_as_published(package: PackageModel, metadata: MetadataModel) -> bool {
    &&& package.resolved == metadata.dist.tarball
    &&& dist_reading(metadata.dist, Ok(package.integrity))
    &&& package.supports.os == metadata.os
    &&& package.supports.cpu == metadata.cpu
    &&& package.bins == metadata_bins(metadata)
    &&& forall|name: Seq<char>| #[trigger]
        package.declared_peers.contains_key(name) <==> metadata.peer_dependencies.contains_key(name)
    &&& forall|name: Seq<char>| #[trigger]
        package.declared_peers.contains_key(name) ==> {
            &&& package.declared_peers[name].range == metadata.peer_dependencies[name]
            &&& package.declared_peers[name].optional <==> metadata.peer_dependencies_meta.contains_key(
                name,
            ) && metadata.peer_dependencies_meta[name]
        }
}

/// Is a package's dependency one that a version declares, resolved as the
/// registry answers?
pub open spec fn is_edge_as_declared(
    book: Book,
    package: PackageModel,
    metadata: MetadataModel,
    name: Seq<char>,
) -> bool {
    exists|specifier: Seq<char>, optional: bool| #[trigger]
        declares(metadata, name, specifier, optional) && is_answered_by(
            book,
            name,
            specifier,
            package.dependencies[name],
        ) && (package.optional_dependencies.contains(name) <==> optional)
}

/// Is somebody still to be asked about a dependency of a package?
spec fn is_awaited(
    work: Seq<PendingModel>,
    id: IdModel,
    name: Seq<char>,
    specifier: Seq<char>,
    optional: bool,
) -> bool {
    exists|i: int|
        0 <= i < work.len() && (#[trigger] work[i]).dependent == (DependentModel::Package {
            id,
            optional,
        }) && work[i].name == name && work[i].specifier == specifier
}

/// Is a package, as far as the walk has come, what a version in the registry's
/// answer declares?
spec fn is_version_of(book: Book, walk: WalkModel, id: IdModel, asked: AskedModel) -> bool {
    let request = request_for(asked);
    let package = walk.packages[id];
    &&& asked.name == id.name
    &&& book.contains_key(request)
    &&& book[request] is Ok
    &&& (book[request]->Ok_0).versions.contains_key(id.version)
    &&& {
        let metadata = (book[request]->Ok_0).versions[id.version];
        &&& is_as_published(package, metadata)
        &&& forall|name: Seq<char>| #[trigger]
            package.dependencies.contains_key(name) ==> is_edge_as_declared(
                book,
                package,
                metadata,
                name,
            )
        &&& forall|name: Seq<char>| #[trigger]
            package.optional_dependencies.contains(name) ==> package.dependencies.contains_key(name)
        &&& forall|name: Seq<char>, specifier: Seq<char>, optional: bool| #[trigger]
            declares(metadata, name, specifier, optional) ==> package.dependencies.contains_key(
                name,
            ) || is_awaited(walk.work, id, name, specifier, optional)
        &&& forall|i: int|
            0 <= i < walk.work.len() && (#[trigger] walk.work[i]).dependent is Package
                && walk.work[i].dependent->id == id ==> declares(
                metadata,
                walk.work[i].name,
                walk.work[i].specifier,
                walk.work[i].dependent->optional,
            )
    }
}

/// Is a project's dependency resolved as it should be: by the registry's
/// answer, or to the member of its name?
pub open spec fn is_resolved_rightly(
    book: Book,
    members: Map<Seq<char>, Seq<char>>,
    path: Seq<char>,
    name: Seq<char>,
    dependency: DependencyModel,
) -> bool {
    match dependency.resolution {
        ResolutionModel::Registry(id) => is_answered_by(book, name, dependency.specifier, id),
        ResolutionModel::Local(way) => members.contains_key(name) && way == path_between(
            path,
            members[name],
        ),
    }
}

/// Is everything that a walk has come to right so far?
spec fn is_right(book: Book, members: Map<Seq<char>, Seq<char>>, walk: WalkModel) -> bool {
    &&& forall|id: IdModel| #[trigger]
        walk.packages.contains_key(id) ==> exists|asked: AskedModel|
            is_version_of(book, walk, id, asked)
    &&& forall|path: Seq<char>, name: Seq<char>|
        walk.importers.contains_key(path) && #[trigger] walk.importers[path].contains_key(name)
            ==> is_resolved_rightly(book, members, path, name, walk.importers[path][name])
    &&& forall|i: int|
        0 <= i < walk.work.len() ==> {
            let pending = #[trigger] walk.work[i];
            &&& asked_reading(pending.name, pending.specifier) == Ok::<AskedModel, ResolveFault>(
                pending.asked,
            )
            &&& pending.dependent is Package ==> walk.packages.contains_key(pending.dependent->id)
        }
}

/// The questions that a version's edges raise.
proof fn every_edge_is_asked_about(id: IdModel, edges: Seq<EdgeModel>)
    requires
        pendings_of(id, edges) is Ok,
    ensures
        ({
            let found = pendings_of(id, edges)->Ok_0;
            &&& found.len() == edges.len()
            &&& forall|i: int|
                0 <= i < found.len() ==> {
                    let pending = #[trigger] found[i];
                    &&& pending.dependent == DependentModel::Package {
                        id,
                        optional: edges[i].optional,
                    }
                    &&& pending.name == edges[i].name
                    &&& pending.specifier == edges[i].specifier
                    &&& asked_reading(pending.name, pending.specifier) == Ok::<
                        AskedModel,
                        ResolveFault,
                    >(pending.asked)
                }
        }),
    decreases edges.len(),
{
    if edges.len() > 0 {
        every_edge_is_asked_about(id, edges.drop_last());
        let before = pendings_of(id, edges.drop_last())->Ok_0;
        let found = pendings_of(id, edges)->Ok_0;
        assert forall|i: int| 0 <= i < found.len() implies {
            let pending = #[trigger] found[i];
            &&& pending.dependent == DependentModel::Package { id, optional: edges[i].optional }
            &&& pending.name == edges[i].name
            &&& pending.specifier == edges[i].specifier
            &&& asked_reading(pending.name, pending.specifier) == Ok::<AskedModel, ResolveFault>(
                pending.asked,
            )
        } by {
            if i < before.len() {
                assert(found[i] == before[i]);
                assert(edges.drop_last()[i] == edges[i]);
            }
        }
    }
}

/// The edges of a version are what it declares.
proof fn edges_are_declared(metadata: MetadataModel)
    requires
        metadata.dependencies.dom().finite(),
        metadata.optional_dependencies.dom().finite(),
    ensures
        forall|i: int|
            0 <= i < edges_of(metadata).len() ==> declares(
                metadata,
                (#[trigger] edges_of(metadata)[i]).name,
                edges_of(metadata)[i].specifier,
                edges_of(metadata)[i].optional,
            ),
        forall|name: Seq<char>, specifier: Seq<char>, optional: bool| #[trigger]
            declares(metadata, name, specifier, optional) ==> edges_of(metadata).contains(
                EdgeModel { name, specifier, optional },
            ),
{
    let required = metadata.dependencies.dom().difference(metadata.optional_dependencies.dom());
    let extra = metadata.optional_dependencies.dom();
    in_order_lists::<String>(required);
    in_order_lists::<String>(extra);
    let first = in_order::<String>(required);
    let second = in_order::<String>(extra);
    let edges = edges_of(metadata);
    assert forall|i: int| 0 <= i < edges.len() implies declares(
        metadata,
        (#[trigger] edges[i]).name,
        edges[i].specifier,
        edges[i].optional,
    ) by {
        if i < first.len() {
            assert(first.to_set().contains(first[i]));
            assert(required.contains(first[i]));
        } else {
            assert(second.to_set().contains(second[i - first.len()]));
            assert(extra.contains(second[i - first.len()]));
        }
    }
    assert forall|name: Seq<char>, specifier: Seq<char>, optional: bool| #[trigger]
        declares(metadata, name, specifier, optional) implies edges.contains(
        EdgeModel { name, specifier, optional },
    ) by {
        if optional {
            assert(second.to_set().contains(name));
            let k = second.index_of(name);
            assert(edges[first.len() + k] == (EdgeModel { name, specifier, optional }));
        } else {
            assert(required.contains(name));
            assert(first.to_set().contains(name));
            let k = first.index_of(name);
            assert(edges[k] == (EdgeModel { name, specifier, optional }));
        }
    }
}

/// What was visited before stays right.
proof fn old_packages_stay_right(
    book: Book,
    members: Map<Seq<char>, Seq<char>>,
    walk: WalkModel,
    x: IdModel,
    asked: AskedModel,
)
    requires
        is_written(book),
        is_right(book, members, walk),
        walk.work.len() > 0,
        book.contains_key(request_for(walk.work[0].asked)),
        visited(
            (WalkModel { work: walk.work.drop_first(), ..walk }),
            walk.work[0],
            book[request_for(walk.work[0].asked)],
        ) is Ok,
        walk.packages.contains_key(x),
        is_version_of(book, walk, x, asked),
    ensures
        is_version_of(
            book,
            visited(
                (WalkModel { work: walk.work.drop_first(), ..walk }),
                walk.work[0],
                book[request_for(walk.work[0].asked)],
            )->Ok_0,
            x,
            asked,
        ),
{
    let pending = walk.work[0];
    let rest = WalkModel { work: walk.work.drop_first(), ..walk };
    let answer = book[request_for(pending.asked)];
    let packument = answer->Ok_0;
    let version = chosen(packument, pending.asked.name, pending.asked.range)->Ok_0;
    the_highest_version_is_chosen(packument, pending.asked.name, pending.asked.range);
    let id = plain_id(pending.asked.name, version);
    assert(is_answered_by(book, pending.name, pending.specifier, id));
    let step = recorded(rest, pending, id);
    let next = visited(rest, pending, answer)->Ok_0;
    let found = if step.packages.contains_key(id) {
        seq![]
    } else {
        pendings_of(id, edges_of(packument.versions[version]))->Ok_0
    };
    if !step.packages.contains_key(id) {
        every_edge_is_asked_about(id, edges_of(packument.versions[version]));
    }
    assert(step.packages.dom() =~= walk.packages.dom());
    assert(next.work =~= rest.work + found);
    assert(step.packages.contains_key(x));
    assert(next.packages[x] == step.packages[x]);
    let metadata = (book[request_for(asked)]->Ok_0).versions[x.version];
    let before = walk.packages[x];
    let after = next.packages[x];
    let is_parent = pending.dependent is Package && pending.dependent->id == x;
    assert forall|name: Seq<char>| #[trigger]
        after.dependencies.contains_key(name) implies is_edge_as_declared(
        book,
        after,
        metadata,
        name,
    ) by {
        if is_parent && name == pending.name {
            let optional = pending.dependent->optional;
            assert(declares(metadata, name, pending.specifier, optional));
            if !optional && before.optional_dependencies.contains(name) {
                assert(before.dependencies.contains_key(name));
                assert(is_edge_as_declared(book, before, metadata, name));
            }
        } else {
            assert(before.dependencies.contains_key(name));
            assert(is_edge_as_declared(book, before, metadata, name));
            let (specifier, optional) = choose|specifier: Seq<char>, optional: bool| #[trigger]
                declares(metadata, name, specifier, optional) && is_answered_by(
                    book,
                    name,
                    specifier,
                    before.dependencies[name],
                ) && (before.optional_dependencies.contains(name) <==> optional);
            assert(declares(metadata, name, specifier, optional));
        }
    }
    assert forall|name: Seq<char>| #[trigger]
        after.optional_dependencies.contains(name) implies after.dependencies.contains_key(
        name,
    ) by {
        if before.optional_dependencies.contains(name) {
            assert(before.dependencies.contains_key(name));
        }
    }
    assert forall|name: Seq<char>, specifier: Seq<char>, optional: bool| #[trigger]
        declares(metadata, name, specifier, optional) implies after.dependencies.contains_key(name)
        || is_awaited(next.work, x, name, specifier, optional) by {
        if !before.dependencies.contains_key(name) {
            assert(is_awaited(walk.work, x, name, specifier, optional));
            let i = choose|i: int|
                0 <= i < walk.work.len() && (#[trigger] walk.work[i]).dependent == (
                DependentModel::Package { id: x, optional }) && walk.work[i].name == name
                    && walk.work[i].specifier == specifier;
            if i > 0 {
                assert(next.work[i - 1] == walk.work[i]);
            }
        }
    }
    assert forall|i: int|
        0 <= i < next.work.len() && (#[trigger] next.work[i]).dependent is Package
            && next.work[i].dependent->id == x implies declares(
        metadata,
        next.work[i].name,
        next.work[i].specifier,
        next.work[i].dependent->optional,
    ) by {
        if i < rest.work.len() {
            assert(next.work[i] == walk.work[i + 1]);
        } else {
            assert(next.work[i] == found[i - rest.work.len()]);
        }
    }
    assert(is_as_published(after, metadata));
}

/// What is visited for the first time is right.
proof fn new_packages_are_right(
    book: Book,
    members: Map<Seq<char>, Seq<char>>,
    walk: WalkModel,
)
    requires
        is_written(book),
        is_right(book, members, walk),
        walk.work.len() > 0,
        book.contains_key(request_for(walk.work[0].asked)),
        visited(
            (WalkModel { work: walk.work.drop_first(), ..walk }),
            walk.work[0],
            book[request_for(walk.work[0].asked)],
        ) is Ok,
    ensures
        ({
            let pending = walk.work[0];
            let answer = book[request_for(pending.asked)];
            let next = visited(
                (WalkModel { work: walk.work.drop_first(), ..walk }),
                pending,
                answer,
            )->Ok_0;
            let version = chosen(answer->Ok_0, pending.asked.name, pending.asked.range)->Ok_0;
            let id = plain_id(pending.asked.name, version);
            !walk.packages.contains_key(id) ==> is_version_of(book, next, id, pending.asked)
        }),
{
    let pending = walk.work[0];
    let rest = WalkModel { work: walk.work.drop_first(), ..walk };
    let answer = book[request_for(pending.asked)];
    let packument = answer->Ok_0;
    let version = chosen(packument, pending.asked.name, pending.asked.range)->Ok_0;
    the_highest_version_is_chosen(packument, pending.asked.name, pending.asked.range);
    let id = plain_id(pending.asked.name, version);
    let step = recorded(rest, pending, id);
    let next = visited(rest, pending, answer)->Ok_0;
    assert(step.packages.dom() =~= walk.packages.dom());
    if !walk.packages.contains_key(id) {
        assert(!step.packages.contains_key(id));
        let metadata = packument.versions[version];
        let edges = edges_of(metadata);
        let found = pendings_of(id, edges)->Ok_0;
        every_edge_is_asked_about(id, edges);
        edges_are_declared(metadata);
        dist_integrity_reads(metadata.dist);
        assert(next.work =~= rest.work + found);
        let package = next.packages[id];
        assert(is_as_published(package, metadata));
        assert forall|name: Seq<char>, specifier: Seq<char>, optional: bool| #[trigger]
            declares(metadata, name, specifier, optional) implies is_awaited(
            next.work,
            id,
            name,
            specifier,
            optional,
        ) by {
            let edge = EdgeModel { name, specifier, optional };
            assert(edges.contains(edge));
            let k = edges.index_of(edge);
            assert(edges[k] == edge);
            assert(next.work[rest.work.len() + k] == found[k]);
        }
        assert forall|i: int|
            0 <= i < next.work.len() && (#[trigger] next.work[i]).dependent is Package
                && next.work[i].dependent->id == id implies declares(
            metadata,
            next.work[i].name,
            next.work[i].specifier,
            next.work[i].dependent->optional,
        ) by {
            if i < rest.work.len() {
                assert(next.work[i] == walk.work[i + 1]);
            } else {
                assert(next.work[i] == found[i - rest.work.len()]);
            }
        }
        assert forall|name: Seq<char>| !package.dependencies.contains_key(name) by {}
        assert forall|name: Seq<char>| !package.optional_dependencies.contains(name) by {}
    }
}

proof fn visiting_is_right(book: Book, members: Map<Seq<char>, Seq<char>>, walk: WalkModel)
    requires
        is_written(book),
        is_right(book, members, walk),
        walk.work.len() > 0,
        book.contains_key(request_for(walk.work[0].asked)),
        visited(
            (WalkModel { work: walk.work.drop_first(), ..walk }),
            walk.work[0],
            book[request_for(walk.work[0].asked)],
        ) is Ok,
    ensures
        is_right(
            book,
            members,
            visited(
                (WalkModel { work: walk.work.drop_first(), ..walk }),
                walk.work[0],
                book[request_for(walk.work[0].asked)],
            )->Ok_0,
        ),
{
    let pending = walk.work[0];
    let rest = WalkModel { work: walk.work.drop_first(), ..walk };
    let answer = book[request_for(pending.asked)];
    let packument = answer->Ok_0;
    let version = chosen(packument, pending.asked.name, pending.asked.range)->Ok_0;
    the_highest_version_is_chosen(packument, pending.asked.name, pending.asked.range);
    let id = plain_id(pending.asked.name, version);
    assert(is_answered_by(book, pending.name, pending.specifier, id));
    let step = recorded(rest, pending, id);
    let next = visited(rest, pending, answer)->Ok_0;
    assert(step.packages.dom() =~= walk.packages.dom());
    assert forall|x: IdModel| #[trigger] next.packages.contains_key(x) implies exists|
        asked: AskedModel,
    | is_version_of(book, next, x, asked) by {
        if walk.packages.contains_key(x) {
            let asked = choose|asked: AskedModel| is_version_of(book, walk, x, asked);
            old_packages_stay_right(book, members, walk, x, asked);
            assert(is_version_of(book, next, x, asked));
        } else {
            assert(x == id);
            new_packages_are_right(book, members, walk);
            assert(is_version_of(book, next, x, pending.asked));
        }
    }
    assert forall|path: Seq<char>, name: Seq<char>|
        next.importers.contains_key(path) && #[trigger] next.importers[path].contains_key(
            name,
        ) implies is_resolved_rightly(book, members, path, name, next.importers[path][name]) by {
        if pending.dependent is Importer && pending.dependent->path == path && pending.name
            == name {
        } else {
            assert(walk.importers.contains_key(path));
            assert(walk.importers[path].contains_key(name));
        }
    }
    let found = if step.packages.contains_key(id) {
        seq![]
    } else {
        pendings_of(id, edges_of(packument.versions[version]))->Ok_0
    };
    if !step.packages.contains_key(id) {
        every_edge_is_asked_about(id, edges_of(packument.versions[version]));
    }
    assert(next.work =~= rest.work + found);
    assert forall|i: int| 0 <= i < next.work.len() implies {
        let pending = #[trigger] next.work[i];
        &&& asked_reading(pending.name, pending.specifier) == Ok::<AskedModel, ResolveFault>(
            pending.asked,
        )
        &&& pending.dependent is Package ==> next.packages.contains_key(pending.dependent->id)
    } by {
        if i < rest.work.len() {
            assert(next.work[i] == walk.work[i + 1]);
        } else {
            assert(next.work[i] == found[i - rest.work.len()]);
        }
    }
}

proof fn walking_is_right(
    book: Book,
    members: Map<Seq<char>, Seq<char>>,
    walk: WalkModel,
    steps: nat,
)
    requires
        is_written(book),
        is_right(book, members, walk),
        walked(book, walk, steps) is Some,
        walked(book, walk, steps)->0 is Ok,
    ensures
        is_right(book, members, (walked(book, walk, steps)->0)->Ok_0),
        ((walked(book, walk, steps)->0)->Ok_0).work.len() == 0,
    decreases steps,
{
    if walk.work.len() > 0 {
        let pending = walk.work[0];
        let rest = WalkModel { work: walk.work.drop_first(), ..walk };
        let answer = book[request_for(pending.asked)];
        visiting_is_right(book, members, walk);
        walking_is_right(
            book,
            members,
            visited(rest, pending, answer)->Ok_0,
            (steps - 1) as nat,
        );
    }
}

/// Does a walk start right: with nothing but questions and links to members?
spec fn starts_right(members: Map<Seq<char>, Seq<char>>, walk: WalkModel) -> bool {
    &&& walk.packages.dom() =~= Set::empty()
    &&& forall|path: Seq<char>, name: Seq<char>|
        walk.importers.contains_key(path) && #[trigger] walk.importers[path].contains_key(name)
            ==> walk.importers[path][name].resolution is Local && members.contains_key(name)
            && walk.importers[path][name].resolution->Local_0 == path_between(path, members[name])
    &&& forall|i: int|
        0 <= i < walk.work.len() ==> {
            let pending = #[trigger] walk.work[i];
            &&& asked_reading(pending.name, pending.specifier) == Ok::<AskedModel, ResolveFault>(
                pending.asked,
            )
            &&& pending.dependent is Importer
        }
}

proof fn naming_starts_right(
    members: Map<Seq<char>, Seq<char>>,
    roots: Roots,
    path: Seq<char>,
    names: Seq<Seq<char>>,
    walk: WalkModel,
)
    requires
        starts_right(members, walk),
        seeded_by_names(members, path, roots[path], names, walk) is Ok,
    ensures
        starts_right(members, seeded_by_names(members, path, roots[path], names, walk)->Ok_0),
    decreases names.len(),
{
    if names.len() > 0 {
        naming_starts_right(members, roots, path, names.drop_last(), walk);
        let before = seeded_by_names(members, path, roots[path], names.drop_last(), walk)->Ok_0;
        let name = names.last();
        let after = seeded_with(members, path, name, roots[path][name], before)->Ok_0;
        assert forall|p: Seq<char>, n: Seq<char>|
            after.importers.contains_key(p) && #[trigger] after.importers[p].contains_key(
                n,
            ) implies after.importers[p][n].resolution is Local && members.contains_key(n)
            && after.importers[p][n].resolution->Local_0 == path_between(p, members[n]) by {
            if p == path && n == name && after.work == before.work {
            } else {
                assert(before.importers.contains_key(p));
                assert(before.importers[p].contains_key(n));
            }
        }
        assert forall|i: int| 0 <= i < after.work.len() implies {
            let pending = #[trigger] after.work[i];
            &&& asked_reading(pending.name, pending.specifier) == Ok::<AskedModel, ResolveFault>(
                pending.asked,
            )
            &&& pending.dependent is Importer
        } by {
            if i < before.work.len() {
                assert(after.work[i] == before.work[i]);
            }
        }
    }
}

proof fn seeding_starts_right(
    members: Map<Seq<char>, Seq<char>>,
    roots: Roots,
    paths: Seq<Seq<char>>,
)
    requires
        seeded_by_paths(members, roots, paths, blank_walk(roots)) is Ok,
    ensures
        starts_right(members, seeded_by_paths(members, roots, paths, blank_walk(roots))->Ok_0),
    decreases paths.len(),
{
    if paths.len() > 0 {
        seeding_starts_right(members, roots, paths.drop_last());
        let before = seeded_by_paths(members, roots, paths.drop_last(), blank_walk(roots))->Ok_0;
        let path = paths.last();
        naming_starts_right(
            members,
            roots,
            path,
            in_order::<String>(roots[path].dom()),
            before,
        );
    }
}

/// Is a package of a graph as the registry answers: a version that is
/// published under its name, with what it was published with, and with every
/// dependency that it declares and no other, each at the version that is asked
/// for, and marked optional exactly where it is declared to be?
pub open spec fn is_as_answered(book: Book, package: PackageModel, asked: AskedModel) -> bool {
    let request = request_for(asked);
    &&& asked.name == package.id.name
    &&& book.contains_key(request)
    &&& book[request] is Ok
    &&& (book[request]->Ok_0).versions.contains_key(package.id.version)
    &&& {
        let metadata = (book[request]->Ok_0).versions[package.id.version];
        &&& is_as_published(package, metadata)
        &&& forall|name: Seq<char>| #[trigger]
            package.dependencies.contains_key(name) <==> metadata.dependencies.contains_key(name)
                || metadata.optional_dependencies.contains_key(name)
        &&& forall|name: Seq<char>| #[trigger]
            package.dependencies.contains_key(name) ==> is_edge_as_declared(
                book,
                package,
                metadata,
                name,
            )
    }
}

/// Every package of a resolved graph is a published version with every
/// dependency it declares, each at the highest version that is asked for, and
/// every dependency of a project is resolved so too, or leads to a member.
pub proof fn resolutions_are_right(
    book: Book,
    roots: Roots,
    members: Map<Seq<char>, Seq<char>>,
    graph: GraphModel,
)
    requires
        is_written(book),
        resolves_to(book, roots, members, Ok(graph)),
    ensures
        forall|id: IdModel| #[trigger]
            graph.packages.contains_key(id) ==> graph.packages[id].id == id && exists|
                asked: AskedModel,
            | is_as_answered(book, graph.packages[id], asked),
        forall|path: Seq<char>, name: Seq<char>|
            graph.importers.contains_key(path) && #[trigger] graph.importers[path].contains_key(
                name,
            ) ==> is_resolved_rightly(book, members, path, name, graph.importers[path][name]),
{
    let seed = seeded_walk(roots, members)->Ok_0;
    let steps = choose|steps: nat|
        match #[trigger] walked(book, seed, steps) {
            Some(Ok(walk)) => Ok::<GraphModel, ResolveFault>(graph) == Ok::<
                GraphModel,
                ResolveFault,
            >(graph_of(walk)),
            Some(Err(fault)) => Ok::<GraphModel, ResolveFault>(graph) == Err::<
                GraphModel,
                ResolveFault,
            >(fault),
            None => false,
        };
    seeding_starts_right(members, roots, in_order::<ImporterPath>(roots.dom()));
    assert forall|id: IdModel| !seed.packages.contains_key(id) by {
        assert(!seed.packages.dom().contains(id));
    }
    assert(is_right(book, members, seed));
    walking_is_right(book, members, seed, steps);
    resolved_graphs_are_closed(book, roots, members, graph);
    let last = (walked(book, seed, steps)->0)->Ok_0;
    assert forall|id: IdModel| #[trigger]
        graph.packages.contains_key(id) implies graph.packages[id].id == id && exists|
        asked: AskedModel,
    | is_as_answered(book, graph.packages[id], asked) by {
        assert(last.packages.contains_key(id));
        let asked = choose|asked: AskedModel| is_version_of(book, last, id, asked);
        let package = graph.packages[id];
        let metadata = (book[request_for(asked)]->Ok_0).versions[id.version];
        assert forall|name: Seq<char>| #[trigger] package.dependencies.contains_key(name)
            <==> metadata.dependencies.contains_key(name)
            || metadata.optional_dependencies.contains_key(name) by {
            if package.dependencies.contains_key(name) {
                assert(is_edge_as_declared(book, package, metadata, name));
            }
            if metadata.optional_dependencies.contains_key(name) {
                let specifier = metadata.optional_dependencies[name];
                assert(declares(metadata, name, specifier, true));
                assert(!is_awaited(last.work, id, name, specifier, true));
            } else if metadata.dependencies.contains_key(name) {
                let specifier = metadata.dependencies[name];
                assert(declares(metadata, name, specifier, false));
                assert(!is_awaited(last.work, id, name, specifier, false));
            }
        }
        assert(is_as_answered(book, package, asked));
    }
}

} // verus!
