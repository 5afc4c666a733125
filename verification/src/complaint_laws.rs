//! What is complained about: every peer that a package goes without though it
//! needs it, and every one that is there at the wrong version, and nothing
//! else.

use vstd::prelude::*;
use crate::complaints::{
    complained, complained_below, complained_roots, complaint_about, complaint_list, complaints_of,
    own_complaints, provided_by, ComplaintModel, Complaints,
};
use crate::copies::provider;
use crate::graph::GraphModel;
use crate::importer::ImporterPath;
use crate::package_id::{plain_id, IdModel, PackageId};
use crate::peer_laws::{edges_end_inside, is_finite};
use crate::range::range_admits;
use crate::sight_laws::{
    is_nearest, is_step, leads_down, levels_of, levels_offer, nearest_provides, offered,
};
use crate::sorted::{in_order, in_order_lists};

verus! {

/// Is this what there is to say of a declared peer of the package at the end
/// of a way: that nothing on the way offers it, though it is not optional, or
/// that the version which is offered nearest is outside the range?
pub open spec fn is_amiss(
    graph: GraphModel,
    path: Seq<char>,
    way: Seq<IdModel>,
    name: Seq<char>,
    complaint: ComplaintModel,
) -> bool {
    let id = way.last();
    let declared = graph.packages[id].declared_peers;
    &&& leads_down(graph, path, way)
    &&& way.len() > 0
    &&& declared.contains_key(name)
    &&& complaint.dependent == plain_id(id.name, id.version)
    &&& complaint.peer == name
    &&& complaint.range == declared[name].range
    &&& match complaint.found {
        None => !declared[name].optional && forall|level: int|
            0 <= level <= way.len() ==> #[trigger] offered(graph, path, way, level, name) is None,
        Some(version) => !range_admits(declared[name].range, version) && exists|level: int|
            #[trigger] is_nearest(graph, path, way, level, name) && (offered(
                graph,
                path,
                way,
                level,
                name,
            )->0).version == version,
    }
}

/// Was a package looked at on some way, and was whatever is amiss with its
/// peers there complained about?
pub open spec fn is_looked_at(graph: GraphModel, id: IdModel, complaints: Complaints) -> bool {
    exists|path: Seq<char>, way: Seq<IdModel>|
        {
            &&& #[trigger] leads_down(graph, path, way)
            &&& way.len() > 0
            &&& way.last() == id
            &&& forall|name: Seq<char>, complaint: ComplaintModel| #[trigger]
                is_amiss(graph, path, way, name, complaint) ==> complaints.contains_key(
                    (plain_id(id.name, id.version), name),
                )
        }
}

/// Is a complaint about what is amiss on some way?
pub open spec fn is_due(
    graph: GraphModel,
    key: (IdModel, Seq<char>),
    complaints: Complaints,
) -> bool {
    exists|path: Seq<char>, way: Seq<IdModel>|
        #[trigger] is_amiss(graph, path, way, key.1, complaints[key]) && key.0
            == complaints[key].dependent
}

/// Where a look at the packages stands: everything that was entered was looked
/// at, every complaint is due, and everything below what was left again was
/// entered.
spec fn is_sound(
    graph: GraphModel,
    open: Set<IdModel>,
    complaints: Complaints,
    inside: Set<IdModel>,
) -> bool {
    &&& open.subset_of(graph.packages.dom())
    &&& forall|id: IdModel| #[trigger]
        graph.packages.contains_key(id) && !open.contains(id) ==> is_looked_at(
            graph,
            id,
            complaints,
        )
    &&& forall|key: (IdModel, Seq<char>)| #[trigger]
        complaints.contains_key(key) ==> is_due(graph, key, complaints)
    &&& forall|id: IdModel, name: Seq<char>|
        graph.packages.contains_key(id) && !open.contains(id) && !inside.contains(id)
            && #[trigger] graph.packages[id].dependencies.contains_key(name) ==> !open.contains(
            graph.packages[id].dependencies[name],
        )
}

proof fn amiss_is_complained(
    graph: GraphModel,
    path: Seq<char>,
    way: Seq<IdModel>,
    name: Seq<char>,
)
    requires
        leads_down(graph, path, way),
        way.len() > 0,
        graph.packages[way.last()].declared_peers.contains_key(name),
    ensures
        ({
            let chain = levels_of(graph, path, way);
            let said = complaint_about(way.last(), graph.packages[way.last()], chain, name);
            &&& forall|complaint: ComplaintModel| #[trigger]
                is_amiss(graph, path, way, name, complaint) ==> said is Some
            &&& said is Some ==> is_amiss(graph, path, way, name, said->0)
        }),
{
    let chain = levels_of(graph, path, way);
    let package = graph.packages[way.last()];
    let said = complaint_about(way.last(), package, chain, name);
    nearest_provides(graph, path, way, name);
    match provider(name, chain) {
        None => {
            none_is_offered(graph, path, way, name);
        },
        Some((frame, found)) => {
            assert(is_nearest(graph, path, way, frame as int, name));
            assert forall|complaint: ComplaintModel| #[trigger]
                is_amiss(graph, path, way, name, complaint) implies said is Some by {
                if complaint.found is None {
                    assert(offered(graph, path, way, frame as int, name) is None);
                }
            }
        },
    }
}

/// Where no level is the nearest, none offers the name.
proof fn none_is_offered(
    graph: GraphModel,
    path: Seq<char>,
    way: Seq<IdModel>,
    name: Seq<char>,
)
    requires
        forall|level: int| !is_nearest(graph, path, way, level, name),
    ensures
        forall|level: int|
            0 <= level <= way.len() ==> #[trigger] offered(graph, path, way, level, name) is None,
{
    assert forall|level: int| 0 <= level <= way.len() implies #[trigger] offered(
        graph,
        path,
        way,
        level,
        name,
    ) is None by {
        none_is_offered_from(graph, path, way, name, level);
    }
}

proof fn none_is_offered_from(
    graph: GraphModel,
    path: Seq<char>,
    way: Seq<IdModel>,
    name: Seq<char>,
    level: int,
)
    requires
        forall|level: int| !is_nearest(graph, path, way, level, name),
        0 <= level <= way.len(),
    ensures
        forall|below: int|
            level <= below <= way.len() ==> #[trigger] offered(graph, path, way, below, name)
                is None,
    decreases way.len() - level,
{
    if level < way.len() {
        none_is_offered_from(graph, path, way, name, level + 1);
    }
    assert(!is_nearest(graph, path, way, level, name));
}

/// One step further down.
proof fn leading_on(
    graph: GraphModel,
    path: Seq<char>,
    way: Seq<IdModel>,
    name: Seq<char>,
    id: IdModel,
)
    requires
        leads_down(graph, path, way),
        graph.packages.contains_key(id),
        offered(graph, path, way, way.len() as int, name) == Some(id),
    ensures
        leads_down(graph, path, way.push(id)),
        levels_of(graph, path, way.push(id)) == levels_of(graph, path, way).push(
            graph.packages[id].dependencies,
        ),
{
    let more = way.push(id);
    let n = way.len() as int;
    assert(levels_of(graph, path, more) =~= levels_of(graph, path, way).push(
        graph.packages[id].dependencies,
    ));
    assert forall|k: int| #![trigger more[k]] 0 <= k < more.len() implies is_step(
        graph,
        path,
        more,
        k,
    ) by {
        if k < n {
            assert(way[k] == more[k]);
            assert(is_step(graph, path, way, k));
            let by = choose|name: Seq<char>| #[trigger]
                offered(graph, path, way, k, name) == Some(way[k]);
            assert(offered(graph, path, more, k, by) == Some(more[k]));
        } else {
            assert(offered(graph, path, more, n, name) == Some(more[n]));
        }
    }
}

/// Looking at a package adds what is amiss there.
proof fn entering(
    graph: GraphModel,
    path: Seq<char>,
    way: Seq<IdModel>,
    open: Set<IdModel>,
    complaints: Complaints,
    inside: Set<IdModel>,
)
    requires
        leads_down(graph, path, way),
        way.len() > 0,
        is_sound(graph, open, complaints, inside),
        open.contains(way.last()),
    ensures
        ({
            let id = way.last();
            is_sound(
                graph,
                open.remove(id),
                own_complaints(
                    id,
                    graph.packages[id],
                    levels_of(graph, path, way),
                ).union_prefer_right(complaints),
                inside.insert(id),
            )
        }),
{
    let id = way.last();
    let chain = levels_of(graph, path, way);
    let own = own_complaints(id, graph.packages[id], chain);
    let after = own.union_prefer_right(complaints);
    let rest = open.remove(id);
    assert forall|other: IdModel| #[trigger]
        graph.packages.contains_key(other) && !rest.contains(other) implies is_looked_at(
        graph,
        other,
        after,
    ) by {
        if other == id {
            assert forall|name: Seq<char>, complaint: ComplaintModel| #[trigger]
                is_amiss(graph, path, way, name, complaint) implies after.contains_key(
                (plain_id(id.name, id.version), name),
            ) by {
                amiss_is_complained(graph, path, way, name);
                assert(own.contains_key((plain_id(id.name, id.version), name)));
            }
        } else {
            assert(is_looked_at(graph, other, complaints));
        }
    }
    assert forall|key: (IdModel, Seq<char>)| #[trigger] after.contains_key(key) implies is_due(
        graph,
        key,
        after,
    ) by {
        if complaints.contains_key(key) {
            assert(is_due(graph, key, complaints));
            assert(after[key] == complaints[key]);
        } else {
            assert(own.contains_key(key));
            amiss_is_complained(graph, path, way, key.1);
            assert(is_amiss(graph, path, way, key.1, after[key]));
        }
    }
}

proof fn looking_is_sound(
    graph: GraphModel,
    path: Seq<char>,
    way: Seq<IdModel>,
    name: Seq<char>,
    id: IdModel,
    open: Set<IdModel>,
    complaints: Complaints,
    inside: Set<IdModel>,
    depth: nat,
)
    requires
        is_finite(graph),
        edges_end_inside(graph),
        leads_down(graph, path, way),
        graph.packages.contains_key(id),
        offered(graph, path, way, way.len() as int, name) == Some(id),
        is_sound(graph, open, complaints, inside),
        open.finite(),
        open.len() <= depth,
    ensures
        ({
            let (rest, after) = complained(
                graph.packages,
                id,
                levels_of(graph, path, way),
                open,
                complaints,
                depth,
            );
            &&& is_sound(graph, rest, after, inside)
            &&& rest.subset_of(open)
            &&& !rest.contains(id)
        }),
    decreases depth, 0nat,
{
    if depth == 0 {
        vstd::set_lib::lemma_len_subset(Set::<IdModel>::empty(), open);
        if open.contains(id) {
            vstd::set_lib::lemma_set_empty_equivalency_len(open);
        }
    } else if open.contains(id) {
        let deps = graph.packages[id].dependencies;
        let chain = levels_of(graph, path, way);
        leading_on(graph, path, way, name, id);
        let more = way.push(id);
        entering(graph, path, more, open, complaints, inside);
        let names = in_order::<String>(deps.dom());
        in_order_lists::<String>(deps.dom());
        assert forall|i: int| 0 <= i < names.len() implies #[trigger] deps.contains_key(
            names[i],
        ) by {
            assert(names.to_set().contains(names[i]));
        }
        let own = own_complaints(id, graph.packages[id], chain.push(deps));
        looking_below_is_sound(
            graph,
            path,
            more,
            names,
            deps,
            open.remove(id),
            own.union_prefer_right(complaints),
            inside.insert(id),
            (depth - 1) as nat,
        );
        let (rest, after) = complained(graph.packages, id, chain, open, complaints, depth);
        assert forall|other: IdModel, by: Seq<char>|
            graph.packages.contains_key(other) && !rest.contains(other) && !inside.contains(other)
                && #[trigger] graph.packages[other].dependencies.contains_key(
                by,
            ) implies !rest.contains(graph.packages[other].dependencies[by]) by {
            if other == id {
                assert(names.to_set().contains(by));
                let k = names.index_of(by);
                assert(deps.contains_key(names[k]));
            }
        }
    }
}

proof fn looking_below_is_sound(
    graph: GraphModel,
    path: Seq<char>,
    way: Seq<IdModel>,
    names: Seq<Seq<char>>,
    deps: Map<Seq<char>, IdModel>,
    open: Set<IdModel>,
    complaints: Complaints,
    inside: Set<IdModel>,
    depth: nat,
)
    requires
        is_finite(graph),
        edges_end_inside(graph),
        leads_down(graph, path, way),
        deps == levels_of(graph, path, way).last(),
        forall|i: int| 0 <= i < names.len() ==> #[trigger] deps.contains_key(names[i]),
        is_sound(graph, open, complaints, inside),
        open.finite(),
        open.len() <= depth,
    ensures
        ({
            let (rest, after) = complained_below(
                graph.packages,
                names,
                deps,
                levels_of(graph, path, way),
                open,
                complaints,
                depth,
            );
            &&& is_sound(graph, rest, after, inside)
            &&& rest.subset_of(open)
            &&& forall|i: int|
                0 <= i < names.len() && #[trigger] deps.contains_key(names[i]) ==> !rest.contains(
                    deps[names[i]],
                )
        }),
    decreases depth, names.len(),
{
    if names.len() > 0 {
        let shorter = names.drop_last();
        let chain = levels_of(graph, path, way);
        assert forall|i: int| 0 <= i < shorter.len() implies #[trigger] deps.contains_key(
            shorter[i],
        ) by {
            assert(deps.contains_key(names[i]));
        }
        looking_below_is_sound(graph, path, way, shorter, deps, open, complaints, inside, depth);
        let (middle, before) = complained_below(
            graph.packages,
            shorter,
            deps,
            chain,
            open,
            complaints,
            depth,
        );
        vstd::set_lib::lemma_set_subset_finite(open, middle);
        vstd::set_lib::lemma_len_subset(middle, open);
        let name = names[names.len() - 1];
        assert(deps.contains_key(name));
        let n = way.len() as int;
        assert(chain.last() == chain[n]);
        levels_offer(graph, path, way, n, name);
        if n > 0 {
            assert(is_step(graph, path, way, n - 1));
        }
        looking_is_sound(graph, path, way, name, deps[name], middle, before, inside, depth);
        let rest = complained_below(
            graph.packages,
            names,
            deps,
            chain,
            open,
            complaints,
            depth,
        ).0;
        assert forall|i: int|
            0 <= i < names.len() && #[trigger] deps.contains_key(names[i]) implies !rest.contains(
            deps[names[i]],
        ) by {
            if i < shorter.len() {
                assert(deps.contains_key(shorter[i]));
            }
        }
    }
}

proof fn looking_at_roots_is_sound(graph: GraphModel, paths: Seq<Seq<char>>)
    requires
        is_finite(graph),
        edges_end_inside(graph),
        forall|i: int| 0 <= i < paths.len() ==> graph.importers.contains_key(#[trigger] paths[i]),
    ensures
        ({
            let (rest, after) = complained_roots(graph, paths);
            &&& is_sound(graph, rest, after, Set::empty())
            &&& forall|i: int, name: Seq<char>|
                0 <= i < paths.len() && #[trigger] provided_by(
                    graph.importers[paths[i]],
                ).contains_key(name) ==> !rest.contains(
                    provided_by(graph.importers[paths[i]])[name],
                )
        }),
    decreases paths.len(),
{
    if paths.len() > 0 {
        let shorter = paths.drop_last();
        assert forall|i: int| 0 <= i < shorter.len() implies graph.importers.contains_key(
            #[trigger] shorter[i],
        ) by {
            assert(shorter[i] == paths[i]);
        }
        looking_at_roots_is_sound(graph, shorter);
        let (open, complaints) = complained_roots(graph, shorter);
        let path = paths[paths.len() - 1];
        assert(graph.importers.contains_key(path));
        let frame = provided_by(graph.importers[path]);
        let none = Seq::<IdModel>::empty();
        assert(levels_of(graph, path, none) =~= seq![frame]);
        let names = in_order::<String>(frame.dom());
        assert(frame.dom().subset_of(graph.importers[path].dom()));
        vstd::set_lib::lemma_set_subset_finite(graph.importers[path].dom(), frame.dom());
        in_order_lists::<String>(frame.dom());
        assert forall|i: int| 0 <= i < names.len() implies #[trigger] frame.contains_key(
            names[i],
        ) by {
            assert(names.to_set().contains(names[i]));
        }
        vstd::set_lib::lemma_set_subset_finite(graph.packages.dom(), open);
        vstd::set_lib::lemma_len_subset(open, graph.packages.dom());
        assert(leads_down(graph, path, none));
        looking_below_is_sound(
            graph,
            path,
            none,
            names,
            frame,
            open,
            complaints,
            Set::empty(),
            graph.packages.dom().len(),
        );
        let rest = complained_roots(graph, paths).0;
        assert forall|i: int, name: Seq<char>|
            0 <= i < paths.len() && #[trigger] provided_by(graph.importers[paths[i]]).contains_key(
                name,
            ) implies !rest.contains(provided_by(graph.importers[paths[i]])[name]) by {
            if i < shorter.len() {
                assert(shorter[i] == paths[i]);
                assert(provided_by(graph.importers[shorter[i]]).contains_key(name));
            } else {
                assert(names.to_set().contains(name));
                let k = names.index_of(name);
                assert(frame.contains_key(names[k]));
            }
        }
    }
}

/// Everything that a project leads to is looked at, and whatever is amiss with
/// its peers there is complained about: a required peer that nothing above
/// offers, and any peer that is offered outside its range.
pub proof fn what_is_amiss_is_complained_about(
    graph: GraphModel,
    path: Seq<char>,
    way: Seq<IdModel>,
)
    requires
        is_finite(graph),
        edges_end_inside(graph),
        leads_down(graph, path, way),
        way.len() > 0,
    ensures
        is_looked_at(graph, way.last(), complaints_of(graph)),
{
    let paths = in_order::<ImporterPath>(graph.importers.dom());
    in_order_lists::<ImporterPath>(graph.importers.dom());
    assert forall|i: int| 0 <= i < paths.len() implies graph.importers.contains_key(
        #[trigger] paths[i],
    ) by {
        assert(paths.to_set().contains(paths[i]));
    }
    looking_at_roots_is_sound(graph, paths);
    let rest = complained_roots(graph, paths).0;
    let n = way.len() as int;
    everything_is_entered(graph, path, way, n - 1);
    assert(is_step(graph, path, way, n - 1));
}

proof fn everything_is_entered(graph: GraphModel, path: Seq<char>, way: Seq<IdModel>, k: int)
    requires
        is_finite(graph),
        edges_end_inside(graph),
        leads_down(graph, path, way),
        0 <= k < way.len(),
    ensures
        !complained_roots(
            graph,
            in_order::<ImporterPath>(graph.importers.dom()),
        ).0.contains(way[k]),
    decreases k,
{
    let paths = in_order::<ImporterPath>(graph.importers.dom());
    in_order_lists::<ImporterPath>(graph.importers.dom());
    assert forall|i: int| 0 <= i < paths.len() implies graph.importers.contains_key(
        #[trigger] paths[i],
    ) by {
        assert(paths.to_set().contains(paths[i]));
    }
    looking_at_roots_is_sound(graph, paths);
    assert(is_step(graph, path, way, k));
    let name = choose|name: Seq<char>| #[trigger]
        offered(graph, path, way, k, name) == Some(way[k]);
    if k == 0 {
        assert(paths.to_set().contains(path));
        let i = paths.index_of(path);
        assert(provided_by(graph.importers[paths[i]]).contains_key(name));
    } else {
        everything_is_entered(graph, path, way, k - 1);
        assert(is_step(graph, path, way, k - 1));
        assert(graph.packages[way[k - 1]].dependencies.contains_key(name));
    }
}

/// Nothing else is complained about: each complaint says what is amiss on some
/// way down, and of which version.
pub proof fn only_what_is_amiss_is_complained_about(
    graph: GraphModel,
    key: (IdModel, Seq<char>),
)
    requires
        is_finite(graph),
        edges_end_inside(graph),
        complaints_of(graph).contains_key(key),
    ensures
        is_due(graph, key, complaints_of(graph)),
{
    let paths = in_order::<ImporterPath>(graph.importers.dom());
    in_order_lists::<ImporterPath>(graph.importers.dom());
    assert forall|i: int| 0 <= i < paths.len() implies graph.importers.contains_key(
        #[trigger] paths[i],
    ) by {
        assert(paths.to_set().contains(paths[i]));
    }
    looking_at_roots_is_sound(graph, paths);
}

/// Every complaint is listed, and nothing else is.
pub proof fn complaints_are_listed(complaints: Complaints, complaint: ComplaintModel)
    requires
        complaints.dom().finite(),
    ensures
        complaint_list(complaints).contains(complaint) <==> exists|key: (IdModel, Seq<char>)|
            #[trigger] complaints.contains_key(key) && complaints[key] == complaint,
        complaint_list(complaints).len() == complaints.dom().len(),
{
    let keys = in_order::<(PackageId, String)>(complaints.dom());
    in_order_lists::<(PackageId, String)>(complaints.dom());
    let listed = complaint_list(complaints);
    if listed.contains(complaint) {
        let i = listed.index_of(complaint);
        assert(keys.to_set().contains(keys[i]));
        assert(complaints.contains_key(keys[i]));
    }
    if exists|key: (IdModel, Seq<char>)| #[trigger]
        complaints.contains_key(key) && complaints[key] == complaint {
        let key = choose|key: (IdModel, Seq<char>)| #[trigger]
            complaints.contains_key(key) && complaints[key] == complaint;
        assert(keys.to_set().contains(key));
        let i = keys.index_of(key);
        assert(listed[i] == complaint);
    }
    keys.unique_seq_to_set();
}

} // verus!
