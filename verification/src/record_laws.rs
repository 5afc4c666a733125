//! What a resolution comes to, for names and versions of the usual shape, is
//! what a lockfile can hold.

use vstd::prelude::*;
use crate::copy_laws::every_package_keeps_a_copy;
use crate::graph::{reachable_graph, GraphModel, ImporterModel, PackageModel, ResolutionModel};
use crate::importer::is_importer;
use crate::link_laws::local_paths_stay_inside;
use crate::lock_laws::{
    is_lockable, is_lockable_edge, is_recordable, is_settled, is_storable, locks_read_back,
    reads_back,
};
use crate::lockfile::{
    edge_key_of, edge_value_of, hash_reads_back, loaded, lock_of, LockfileFault, LINK_PREFIX,
};
use crate::naming::{context_from, emitted_package};
use crate::package_id::{
    context_digest, context_opens, hex_text_is_hex, is_keyed_name, is_keyed_version, is_sound_key,
    keys_split_back, listing, plain_id, rendered, rendered_context, IdModel, MAX_KEY_BYTES,
};
use crate::peer_laws::{
    carries, copies_in_graph, edges_end_inside, is_finite, named_copies_are_known, names_in_graph,
    peer_resolution_keeps_graphs_whole, same_edges,
};
use crate::peer_lock_laws::{is_plain_graph, links_are_no_packages};
use crate::peer_pass::{copies_for, peers_resolved, renamed};
use crate::reach_laws::{hashes_are_whole, links_lead_to_members, resolved_graphs_are_reached};
use crate::settle_laws::{goes_round, names_without_loops_are_whole};
use crate::sorted::{in_order, in_order_lists};
use crate::text::opens_with;
use crate::walk::{is_written, resolves_to, Book, Roots};
use crate::walk_laws::resolved_graphs_are_closed;

verus! {

/// Is this a package name of the usual shape?
pub open spec fn is_usual_name(name: Seq<char>) -> bool {
    is_keyed_name(name) && !name.contains(':')
}

/// Is this a version of the usual shape?
pub open spec fn is_usual_version(version: Seq<char>) -> bool {
    is_keyed_version(version) && !version.contains(':')
}

/// Are the names and the versions of a graph of the usual shape, and are its
/// projects in directories of a workspace?
pub open spec fn is_usual(graph: GraphModel) -> bool {
    &&& forall|id: IdModel| #[trigger]
        graph.packages.contains_key(id) ==> is_usual_name(id.name) && is_usual_version(id.version)
    &&& forall|path: Seq<char>| #[trigger] graph.importers.contains_key(path) ==> is_importer(path)
    &&& forall|path: Seq<char>, name: Seq<char>|
        graph.importers.contains_key(path) && #[trigger] graph.importers[path].contains_key(name)
            ==> is_keyed_name(name)
}

/// Does every package of a graph have a key of its own?
pub open spec fn keys_are_apart(packages: Map<IdModel, PackageModel>) -> bool {
    forall|a: IdModel, b: IdModel| #[trigger]
        packages.contains_key(a) && #[trigger] packages.contains_key(b) && rendered(a) == rendered(
            b,
        ) ==> a == b
}

proof fn the_prefix()
    ensures
        LINK_PREFIX@ == seq!['l', 'i', 'n', 'k', ':'],
        "@"@ == seq!['@'],
        "_"@ == seq!['_'],
{
    reveal_strlit("link:");
    reveal_strlit("@");
    reveal_strlit("_");
    assert(LINK_PREFIX@ =~= seq!['l', 'i', 'n', 'k', ':']);
    assert("@"@ =~= seq!['@']);
    assert("_"@ =~= seq!['_']);
}

/// A key is the name and the version, and then nothing, a bracket or a bar.
pub proof fn keys_open_with_their_base(id: IdModel)
    ensures
        ({
            let base = id.name + "@"@ + id.version;
            let key = rendered(id);
            &&& key.len() >= base.len()
            &&& key.take(base.len() as int) == base
            &&& key.len() > base.len() ==> key[base.len() as int] == '(' || key[base.len() as int]
                == '_'
        }),
{
    the_prefix();
    let base = id.name + "@"@ + id.version;
    let key = rendered(id);
    if id.context.len() > 0 {
        context_opens(id.context);
        assert(key.take(base.len() as int) =~= base);
    } else {
        assert(key.take(base.len() as int) =~= base);
    }
}

/// No edge to a package is spelled like a link.
proof fn edges_are_no_links(name: Seq<char>, id: IdModel)
    requires
        is_usual_name(id.name),
        is_usual_version(id.version),
    ensures
        !opens_with(edge_value_of(name, id), LINK_PREFIX@),
        !opens_with(rendered(id), LINK_PREFIX@),
{
    the_prefix();
    keys_open_with_their_base(id);
    let base = id.name + "@"@ + id.version;
    let key = rendered(id);
    let n = id.name.len() as int;
    assert(base[n] == '@');
    assert forall|i: int| 0 <= i < base.len() implies key[i] == #[trigger] base[i] && base[i]
        != ':' by {
        assert(key.take(base.len() as int)[i] == base[i]);
        if i < n {
            assert(base[i] == id.name[i]);
            assert(id.name.contains(id.name[i]));
        } else if i > n {
            assert(base[i] == id.version[i - n - 1]);
            assert(id.version.contains(id.version[i - n - 1]));
        }
    }
    if opens_with(key, LINK_PREFIX@) {
        assert(key.take(5) == LINK_PREFIX@);
        assert forall|i: int| 0 <= i < 5 implies #[trigger] key[i] == LINK_PREFIX@[i] by {
            assert(key.take(5)[i] == key[i]);
        }
        assert(key[4] == ':');
        assert(key[n] == '@');
        if n < 5 {
            assert(key[n] == LINK_PREFIX@[n]);
        } else {
            assert(key[4] == base[4]);
        }
    }
    if id.name == name {
        let value = key.skip(n + 1);
        if opens_with(value, LINK_PREFIX@) {
            let m = id.version.len() as int;
            assert forall|i: int| 0 <= i < 5 implies #[trigger] value[i] == LINK_PREFIX@[i] by {
                assert(value.take(5)[i] == value[i]);
            }
            assert forall|i: int| 0 <= i < m implies #[trigger] value[i] != ':' by {
                assert(value[i] == key[n + 1 + i]);
                assert(key[n + 1 + i] == base[n + 1 + i]);
            }
            assert(value[4] == ':');
            if m <= 4 {
                assert(value[m] == key[base.len() as int]);
                assert(value[m] == LINK_PREFIX@[m]);
            }
        }
    }
}

/// No link is spelled like a package's key.
proof fn links_are_no_keys(name: Seq<char>, target: Seq<char>, id: IdModel)
    requires
        is_keyed_name(name),
        is_usual_name(id.name),
        is_usual_version(id.version),
    ensures
        rendered(id) != edge_key_of(name, LINK_PREFIX@ + target),
{
    the_prefix();
    let link = LINK_PREFIX@ + target;
    let key = rendered(id);
    edges_are_no_links(name, id);
    keys_open_with_their_base(id);
    if key == link {
        assert(link.take(5) =~= LINK_PREFIX@);
        assert(opens_with(key, LINK_PREFIX@));
    }
    let whole = name + "@"@ + link;
    if key == whole {
        let base = id.name + "@"@ + id.version;
        let b = base.len() as int;
        let n = id.name.len() as int;
        let p = name.len() as int + 5;
        assert(whole[p] == ':');
        assert(whole[p - 5] == '@' && whole[p - 4] == 'l' && whole[p - 3] == 'i' && whole[p - 2]
            == 'n' && whole[p - 1] == 'k');
        assert forall|i: int| 0 <= i < b implies #[trigger] key[i] != ':' by {
            assert(key.take(b)[i] == base[i]);
            if i < n {
                assert(base[i] == id.name[i]);
                assert(id.name.contains(id.name[i]));
            } else if i > n {
                assert(base[i] == id.version[i - n - 1]);
                assert(id.version.contains(id.version[i - n - 1]));
            }
        }
        assert(b <= p);
        assert(key[b] == '(' || key[b] == '_');
        assert(b < p - 5);
        assert(key[b] == name[b]);
        assert(name.contains(name[b]));
        assert(key[b] == '_');
        let suffix = rendered_context(id.context);
        context_opens(id.context);
        if vstd::utf8::encode_utf8(base + suffix).len() <= MAX_KEY_BYTES {
            assert(key[b] == suffix[0]);
        } else {
            let hash = context_digest(suffix);
            hex_text_is_hex(crate::integrity::sha512_of(vstd::utf8::encode_utf8(suffix)).take(8));
            assert(key == base + "_"@ + hash);
            assert(key[p] == hash[p - b - 1]);
        }
    }
}

/// What is true of the edges of every project of a graph whose links lead to
/// members.
proof fn project_edges_can_be_locked(
    packages: Map<IdModel, PackageModel>,
    importers: Map<Seq<char>, ImporterModel>,
    members: Map<Seq<char>, Seq<char>>,
    path: Seq<char>,
    name: Seq<char>,
)
    requires
        links_lead_to_members(importers, members),
        forall|member: Seq<char>| #[trigger]
            members.contains_key(member) ==> is_importer(members[member]),
        forall|id: IdModel| #[trigger]
            packages.contains_key(id) ==> is_usual_name(id.name) && is_usual_version(id.version),
        importers.contains_key(path),
        is_importer(path),
        importers[path].contains_key(name),
        importers[path][name].resolution is Registry ==> packages.contains_key(
            importers[path][name].resolution->Registry_0,
        ),
    ensures
        is_lockable_edge(packages, path, name, importers[path][name]),
{
    match importers[path][name].resolution {
        ResolutionModel::Registry(id) => {
            edges_are_no_links(name, id);
        },
        ResolutionModel::Local(target) => {
            local_paths_stay_inside(path, members[name]);
        },
    }
}

/// A context of nothing lists nothing.
proof fn nothing_is_listed(dependencies: Map<Seq<char>, IdModel>)
    requires
        forall|name: Seq<char>| #[trigger]
            dependencies.contains_key(name) ==> dependencies[name].context.len() == 0,
    ensures
        listing(context_from(Map::empty(), dependencies)) == Seq::<(Seq<char>, IdModel)>::empty(),
{
    let context = context_from(Map::empty(), dependencies);
    assert(context =~= Map::<Seq<char>, IdModel>::empty());
    assert(context.dom() =~= Set::<Seq<char>>::empty());
    in_order_lists::<String>(context.dom());
    assert(in_order::<String>(context.dom()).len() == 0);
    assert(listing(context) =~= seq![]);
}

/// Is this a graph that a resolution comes to: one whose packages are published
/// plainly, each under its own identity and with no peer resolved yet, each
/// with a whole hash and each led to by a project, and whose links lead to
/// members?
pub open spec fn is_resolution(graph: GraphModel, members: Map<Seq<char>, Seq<char>>) -> bool {
    &&& is_finite(graph)
    &&& edges_end_inside(graph)
    &&& is_plain_graph(graph)
    &&& forall|id: IdModel| #[trigger]
        graph.packages.contains_key(id) ==> graph.packages[id].id == id
            && graph.packages[id].peers == Map::<Seq<char>, IdModel>::empty()
    &&& reachable_graph(graph) == graph
    &&& links_lead_to_members(graph.importers, members)
    &&& hashes_are_whole(graph.packages)
}

/// Is every member in a directory of the workspace?
pub open spec fn are_importers(members: Map<Seq<char>, Seq<char>>) -> bool {
    forall|name: Seq<char>| #[trigger] members.contains_key(name) ==> is_importer(members[name])
}

/// What was resolved is a resolution.
pub proof fn what_resolves_is_a_resolution(
    book: Book,
    roots: Roots,
    members: Map<Seq<char>, Seq<char>>,
    graph: GraphModel,
)
    requires
        roots.dom().finite(),
        forall|path: Seq<char>| #[trigger]
            roots.contains_key(path) ==> roots[path].dom().finite(),
        is_written(book),
        resolves_to(book, roots, members, Ok(graph)),
        is_finite(graph),
    ensures
        is_resolution(graph, members),
{
    resolved_graphs_are_closed(book, roots, members, graph);
    resolved_graphs_are_reached(book, roots, members, graph);
    assert forall|id: IdModel| #[trigger] graph.packages.contains_key(id) implies id == plain_id(
        id.name,
        id.version,
    ) && graph.packages[id].peers == Map::<Seq<char>, IdModel>::empty() by {
        assert(id.context =~= seq![]);
    }
}

/// What a resolution comes to can be recorded: a lockfile that is written from
/// it reads back as it was, field by field.
pub proof fn resolutions_can_be_recorded(
    graph: GraphModel,
    members: Map<Seq<char>, Seq<char>>,
)
    requires
        is_resolution(graph, members),
        are_importers(members),
        is_usual(graph),
    ensures
        is_recordable(graph),
{
    let packages = graph.packages;
    assert forall|id: IdModel| #[trigger] packages.contains_key(id) implies is_lockable(
        packages,
        id,
    ) && is_settled(packages[id]) by {
        let package = packages[id];
        assert(package.peers.dom() =~= Set::<Seq<char>>::empty());
        assert forall|name: Seq<char>| #[trigger] package.dependencies.contains_key(
            name,
        ) implies packages.contains_key(package.dependencies[name])
            && package.dependencies[name].context.len() == 0 by {
            let to = package.dependencies[name];
            assert(packages.contains_key(to));
            assert(to == plain_id(to.name, to.version));
        }
        nothing_is_listed(package.dependencies);
        assert(id == plain_id(id.name, id.version));
        assert(package.id.context =~= seq![]);
    }
    assert forall|a: IdModel, b: IdModel| #[trigger]
        packages.contains_key(a) && #[trigger] packages.contains_key(b) && rendered(a) == rendered(
            b,
        ) implies a == b by {
        assert(a == plain_id(a.name, a.version) && b == plain_id(b.name, b.version));
        keys_split_back(a);
        keys_split_back(b);
    }
    assert forall|path: Seq<char>, name: Seq<char>|
        graph.importers.contains_key(path) && #[trigger] graph.importers[path].contains_key(
            name,
        ) implies is_lockable_edge(packages, path, name, graph.importers[path][name]) by {
        project_edges_can_be_locked(packages, graph.importers, members, path, name);
    }
}

/// A lockfile that is written from what a resolution comes to reads back as
/// it was: the same projects and packages, field by field.
pub proof fn resolutions_read_back(
    graph: GraphModel,
    members: Map<Seq<char>, Seq<char>>,
)
    requires
        is_resolution(graph, members),
        are_importers(members),
        is_usual(graph),
        forall|id: IdModel| #[trigger]
            graph.packages.contains_key(id) ==> hash_reads_back(graph.packages[id].integrity),
    ensures
        loaded(lock_of(graph)) == Ok::<GraphModel, LockfileFault>(graph),
{
    resolutions_can_be_recorded(graph, members);
    assert(reads_back(graph)) by {
        assert forall|id: IdModel| #[trigger] graph.packages.contains_key(id) implies is_sound_key(
            id,
        ) && hash_reads_back(graph.packages[id].integrity) by {
            assert(id == plain_id(id.name, id.version));
        }
    }
    locks_read_back(graph);
}

/// What a resolution comes to once its peers are resolved can be held by a
/// lockfile, where no two of its packages share a key. Where no copy leads back
/// to itself it can be recorded as it is.
pub proof fn peer_resolutions_can_be_recorded(
    graph: GraphModel,
    members: Map<Seq<char>, Seq<char>>,
    levels: nat,
)
    requires
        is_resolution(graph, members),
        are_importers(members),
        is_usual(graph),
        peers_resolved(graph, levels) is Some,
        is_finite(peers_resolved(graph, levels)->0),
        keys_are_apart((peers_resolved(graph, levels)->0).packages),
    ensures
        is_storable(peers_resolved(graph, levels)->0),
        links_are_no_packages(peers_resolved(graph, levels)->0),
        !goes_round(copies_in_graph(graph, levels)) ==> is_recordable(
            peers_resolved(graph, levels)->0,
        ),
{
    let resolved = peers_resolved(graph, levels)->0;
    let packages = resolved.packages;
    let copies = copies_in_graph(graph, levels);
    let names = names_in_graph(graph, levels);
    peer_resolution_keeps_graphs_whole(graph, levels);
    named_copies_are_known(graph, levels);
    assert forall|id: IdModel| #[trigger] packages.contains_key(id) implies is_usual_name(id.name)
        && is_usual_version(id.version) && is_lockable(packages, id) by {
        let x = choose|x: crate::instance::InstanceModel| #[trigger]
            names.contains_key(x) && names[x] == id && packages[id] == emitted_package(
                graph.packages[x.package],
                copies[x],
                names,
                id,
            );
        assert(names.dom().contains(x));
        assert(copies.contains_key(x));
        assert(graph.packages.contains_key(x.package));
        assert(packages[id].peers.dom().subset_of(copies[x].own.dom()));
        vstd::set_lib::lemma_set_subset_finite(copies[x].own.dom(), packages[id].peers.dom());
    }
    assert forall|path: Seq<char>, name: Seq<char>|
        resolved.importers.contains_key(path) && #[trigger] resolved.importers[path].contains_key(
            name,
        ) implies graph.importers.contains_key(path) && graph.importers[path].contains_key(name)
        && (resolved.importers[path][name].resolution is Local ==> graph.importers[path][name]
        == resolved.importers[path][name]) by {
        assert(resolved.importers[path] == renamed(
            graph.importers[path],
            copies_for(graph, path),
            names,
        ));
    }
    assert(links_lead_to_members(resolved.importers, members)) by {
        assert forall|path: Seq<char>, name: Seq<char>|
            resolved.importers.contains_key(path)
                && #[trigger] resolved.importers[path].contains_key(name)
                && resolved.importers[path][name].resolution is Local implies members.contains_key(
            name,
        ) && resolved.importers[path][name].resolution == ResolutionModel::Local(
            crate::importer::path_between(path, members[name]),
        ) by {
            assert(graph.importers[path].contains_key(name));
        }
    }
    assert forall|path: Seq<char>, name: Seq<char>|
        resolved.importers.contains_key(path) && #[trigger] resolved.importers[path].contains_key(
            name,
        ) implies is_lockable_edge(packages, path, name, resolved.importers[path][name]) by {
        assert(graph.importers[path].contains_key(name));
        project_edges_can_be_locked(packages, resolved.importers, members, path, name);
    }
    assert forall|path: Seq<char>, name: Seq<char>, id: IdModel|
        resolved.importers.contains_key(path) && #[trigger] resolved.importers[path].contains_key(
            name,
        ) && resolved.importers[path][name].resolution is Local
            && #[trigger] packages.contains_key(id) implies rendered(id) != edge_key_of(
        name,
        LINK_PREFIX@ + resolved.importers[path][name].resolution->Local_0,
    ) by {
        assert(graph.importers[path].contains_key(name));
        links_are_no_keys(name, resolved.importers[path][name].resolution->Local_0, id);
    }
    if !goes_round(copies) {
        names_without_loops_are_whole(graph, levels);
    }
}

/// Are the packages of one graph copies of those of another: does each carry
/// what the version of its name and number published, with edges to the same
/// names and versions, and does every version keep at least one copy?
pub open spec fn are_copies_of(
    copies: Map<IdModel, PackageModel>,
    packages: Map<IdModel, PackageModel>,
) -> bool {
    &&& forall|id: IdModel| #[trigger]
        copies.contains_key(id) ==> {
            let plain = plain_id(id.name, id.version);
            &&& packages.contains_key(plain)
            &&& carries(copies[id], packages[plain], plain)
            &&& same_edges(copies[id].dependencies, packages[plain].dependencies)
        }
    &&& forall|id: IdModel| #[trigger]
        packages.contains_key(id) ==> exists|copy: IdModel| #[trigger]
            copies.contains_key(copy) && copy.name == id.name && copy.version == id.version
}

/// Resolving the peers of what was resolved gives copies of exactly that.
pub proof fn peer_resolutions_copy_what_was_resolved(graph: GraphModel, levels: nat)
    requires
        is_finite(graph),
        edges_end_inside(graph),
        is_plain_graph(graph),
        reachable_graph(graph) == graph,
        peers_resolved(graph, levels) is Some,
    ensures
        are_copies_of((peers_resolved(graph, levels)->0).packages, graph.packages),
{
    let packages = (peers_resolved(graph, levels)->0).packages;
    peer_resolution_keeps_graphs_whole(graph, levels);
    assert forall|id: IdModel| #[trigger] packages.contains_key(id) implies {
        let plain = plain_id(id.name, id.version);
        &&& graph.packages.contains_key(plain)
        &&& carries(packages[id], graph.packages[plain], plain)
        &&& same_edges(packages[id].dependencies, graph.packages[plain].dependencies)
    } by {
        let from = choose|from: IdModel| #[trigger]
            graph.packages.contains_key(from) && carries(packages[id], graph.packages[from], from)
                && same_edges(packages[id].dependencies, graph.packages[from].dependencies);
        assert(graph.packages.contains_key(from));
        assert(from == plain_id(id.name, id.version));
    }
    assert forall|id: IdModel| #[trigger] graph.packages.contains_key(id) implies exists|
        copy: IdModel,
    | #[trigger]
        packages.contains_key(copy) && copy.name == id.name && copy.version == id.version by {
        every_package_keeps_a_copy(graph, levels, id);
    }
}

} // verus!
