//! What clearing a project's `node_modules` comes to: what is jerky's and not
//! expected goes, and what is not jerky's is left alone and said to be.

use vstd::prelude::*;
use crate::linker::{
    converge, converged, decided, is_debris, is_emptied, is_scope, leads_home, resolved,
    scope_decided, scope_in, unowned_reason, Converged, ConvergedModel, FoundModel, Ground, Listing,
    ListingModel, UnownedModel, UnownedReason,
};
use crate::path::{put_after, steps};
use crate::prune_laws::{all_but_last, holds_scope, is_listed, one_more};
use crate::sorted::{in_order, in_order_lists, SortedSet};

verus! {

/// Does a link lead into the virtual store, or onto a member, once every step
/// up is taken?
pub open spec fn is_own(ground: Ground, found: FoundModel, parent: Seq<char>) -> bool {
    match found {
        FoundModel::Link(target) => {
            let place = resolved(steps(put_after(parent, target)));
            let store = steps(ground.virtual_store);
            ||| store.len() <= place.len() && forall|i: int|
                0 <= i < store.len() ==> #[trigger] place[i] == store[i]
            ||| exists|member: Seq<char>| #[trigger]
                ground.members.contains(member) && steps(member) == place
        },
        _ => false,
    }
}

/// Is this why something is not jerky's: it is no link, or a link that leads
/// elsewhere?
pub open spec fn is_reason(
    ground: Ground,
    found: FoundModel,
    parent: Seq<char>,
    reason: UnownedReason,
) -> bool {
    !is_own(ground, found, parent) && reason == match found {
        FoundModel::Link(_) => UnownedReason::PointsOutside,
        _ => UnownedReason::NotASymlink,
    }
}

/// Is this a listed entry that nobody expects, and that is no scope? The
/// virtual store is expected always.
pub open spec fn is_left_over(ground: Ground, listing: ListingModel, name: Seq<char>) -> bool {
    &&& listing.entries.contains_key(name)
    &&& name != ".jerky"@
    &&& !holds_scope(listing.entries, name)
    &&& !ground.expected.contains(name)
}

/// Is this an entry of a scope that nobody expects under its full name?
pub open spec fn is_left_over_inside(
    ground: Ground,
    listing: ListingModel,
    scope: Seq<char>,
    child: Seq<char>,
) -> bool {
    &&& scope != ".jerky"@
    &&& holds_scope(listing.entries, scope)
    &&& listing.scopes.contains_key(scope)
    &&& listing.scopes[scope].contains_key(child)
    &&& !ground.expected.contains(scope + "/"@ + child)
}

/// Does a scope hold something, and nothing that stays?
pub open spec fn is_left_empty(
    ground: Ground,
    listing: ListingModel,
    node_modules: Seq<char>,
    scope: Seq<char>,
) -> bool {
    &&& scope != ".jerky"@
    &&& holds_scope(listing.entries, scope)
    &&& exists|child: Seq<char>| #[trigger] is_left_over_inside(ground, listing, scope, child)
    &&& forall|child: Seq<char>| #[trigger]
        listing.scopes[scope].contains_key(child) ==> is_left_over_inside(
            ground,
            listing,
            scope,
            child,
        ) && is_own(ground, listing.scopes[scope][child], put_after(node_modules, scope))
}

proof fn reasons_are(ground: Ground, found: FoundModel, parent: Seq<char>)
    ensures
        unowned_reason(found, parent, ground.virtual_store, ground.members) is None <==> is_own(
            ground,
            found,
            parent,
        ),
        forall|reason: UnownedReason| #[trigger]
            is_reason(ground, found, parent, reason) <==> unowned_reason(
                found,
                parent,
                ground.virtual_store,
                ground.members,
            ) == Some(reason),
{
    if let FoundModel::Link(target) = found {
        let place = resolved(steps(put_after(parent, target)));
        let store = steps(ground.virtual_store);
        if store.len() <= place.len() {
            if forall|i: int| 0 <= i < store.len() ==> #[trigger] place[i] == store[i] {
                assert(place.take(store.len() as int) =~= store);
            }
            if place.take(store.len() as int) == store {
                assert forall|i: int| 0 <= i < store.len() implies #[trigger] place[i]
                    == store[i] by {
                    assert(place.take(store.len() as int)[i] == store[i]);
                }
            }
        }
        assert(leads_home(parent, target, ground.virtual_store, ground.members) <==> is_own(
            ground,
            found,
            parent,
        ));
    }
}

proof fn one_more_left(all: Seq<UnownedModel>, added: UnownedModel)
    ensures
        forall|left: UnownedModel| #[trigger] all.push(added).contains(left) <==> all.contains(left)
            || left == added,
{
    let more = all.push(added);
    assert(more[all.len() as int] == added);
    assert forall|left: UnownedModel| #[trigger] more.contains(left) <==> all.contains(left) || left
        == added by {
        if all.contains(left) {
            assert(more[all.index_of(left)] == left);
        }
        if more.contains(left) && left != added {
            assert(all[more.index_of(left)] == left);
        }
    }
}

/// What one decision adds.
proof fn deciding(
    ground: Ground,
    name: Seq<char>,
    found: FoundModel,
    parent: Seq<char>,
    at: Seq<char>,
    before: ConvergedModel,
    path: Seq<char>,
    reason: UnownedReason,
)
    ensures
        ({
            let after = decided(ground, name, found, parent, at, before);
            &&& after.remove.contains(path) <==> before.remove.contains(path) || (
            !ground.expected.contains(name) && is_own(ground, found, parent) && path == at)
            &&& after.left_alone.contains(UnownedModel { path, reason })
                <==> before.left_alone.contains(UnownedModel { path, reason }) || (
            !ground.expected.contains(name) && is_reason(ground, found, parent, reason) && path
                == at)
            &&& after.remove_dirs == before.remove_dirs
        }),
{
    reasons_are(ground, found, parent);
    one_more(before.remove, at);
    match unowned_reason(found, parent, ground.virtual_store, ground.members) {
        Some(why) => one_more_left(before.left_alone, UnownedModel { path: at, reason: why }),
        None => {},
    }
    assert(is_reason(ground, found, parent, reason) || !is_reason(ground, found, parent, reason));
}

proof fn children_are_decided(
    ground: Ground,
    scope: Seq<char>,
    children: Map<Seq<char>, FoundModel>,
    names: Seq<Seq<char>>,
    parent: Seq<char>,
    before: ConvergedModel,
    path: Seq<char>,
    reason: UnownedReason,
)
    ensures
        ({
            let after = scope_decided(ground, scope, children, names, parent, before);
            &&& after.remove.contains(path) <==> before.remove.contains(path) || exists|
                child: Seq<char>,
            | #[trigger]
                names.contains(child) && !ground.expected.contains(scope + "/"@ + child) && is_own(
                    ground,
                    children[child],
                    parent,
                ) && path == put_after(parent, child)
            &&& after.left_alone.contains(UnownedModel { path, reason })
                <==> before.left_alone.contains(UnownedModel { path, reason }) || exists|
                child: Seq<char>,
            | #[trigger]
                names.contains(child) && !ground.expected.contains(scope + "/"@ + child)
                    && is_reason(ground, children[child], parent, reason) && path == put_after(
                    parent,
                    child,
                )
            &&& after.remove_dirs == before.remove_dirs
        }),
    decreases names.len(),
{
    if names.len() > 0 {
        let shorter = names.drop_last();
        let last = names.last();
        children_are_decided(ground, scope, children, shorter, parent, before, path, reason);
        all_but_last(names);
        assert(names.contains(last));
        let so_far = scope_decided(ground, scope, children, shorter, parent, before);
        deciding(
            ground,
            scope + "/"@ + last,
            children[last],
            parent,
            put_after(parent, last),
            so_far,
            path,
            reason,
        );
        let after = scope_decided(ground, scope, children, names, parent, before);
        if so_far.remove.contains(path) && !before.remove.contains(path) {
            let child = choose|child: Seq<char>| #[trigger]
                shorter.contains(child) && !ground.expected.contains(scope + "/"@ + child)
                    && is_own(ground, children[child], parent) && path == put_after(parent, child);
            assert(names.contains(child));
        }
        let left = UnownedModel { path, reason };
        if so_far.left_alone.contains(left) && !before.left_alone.contains(left) {
            let child = choose|child: Seq<char>| #[trigger]
                shorter.contains(child) && !ground.expected.contains(scope + "/"@ + child)
                    && is_reason(ground, children[child], parent, reason) && path == put_after(
                    parent,
                    child,
                );
            assert(names.contains(child));
        }
        if exists|child: Seq<char>| #[trigger]
            names.contains(child) && !ground.expected.contains(scope + "/"@ + child) && is_own(
                ground,
                children[child],
                parent,
            ) && path == put_after(parent, child) {
            let child = choose|child: Seq<char>| #[trigger]
                names.contains(child) && !ground.expected.contains(scope + "/"@ + child) && is_own(
                    ground,
                    children[child],
                    parent,
                ) && path == put_after(parent, child);
            assert(shorter.contains(child) || child == last);
        }
        if exists|child: Seq<char>| #[trigger]
            names.contains(child) && !ground.expected.contains(scope + "/"@ + child) && is_reason(
                ground,
                children[child],
                parent,
                reason,
            ) && path == put_after(parent, child) {
            let child = choose|child: Seq<char>| #[trigger]
                names.contains(child) && !ground.expected.contains(scope + "/"@ + child)
                    && is_reason(ground, children[child], parent, reason) && path == put_after(
                    parent,
                    child,
                );
            assert(shorter.contains(child) || child == last);
        }
    }
}

/// Is a path the place of something left over that is jerky's?
pub open spec fn is_to_go(
    ground: Ground,
    listing: ListingModel,
    node_modules: Seq<char>,
    names: Set<Seq<char>>,
    path: Seq<char>,
) -> bool {
    ||| exists|name: Seq<char>| #[trigger]
        is_left_over(ground, listing, name) && names.contains(name) && is_own(
            ground,
            listing.entries[name],
            node_modules,
        ) && path == put_after(node_modules, name)
    ||| exists|scope: Seq<char>, child: Seq<char>| #[trigger]
        is_left_over_inside(ground, listing, scope, child) && names.contains(scope) && is_own(
            ground,
            listing.scopes[scope][child],
            put_after(node_modules, scope),
        ) && path == put_after(put_after(node_modules, scope), child)
}

/// Is a path the place of something left over that is not jerky's, for some
/// reason?
pub open spec fn is_to_stay(
    ground: Ground,
    listing: ListingModel,
    node_modules: Seq<char>,
    names: Set<Seq<char>>,
    path: Seq<char>,
    reason: UnownedReason,
) -> bool {
    ||| exists|name: Seq<char>| #[trigger]
        is_left_over(ground, listing, name) && names.contains(name) && is_reason(
            ground,
            listing.entries[name],
            node_modules,
            reason,
        ) && path == put_after(node_modules, name)
    ||| exists|scope: Seq<char>, child: Seq<char>| #[trigger]
        is_left_over_inside(ground, listing, scope, child) && names.contains(scope) && is_reason(
            ground,
            listing.scopes[scope][child],
            put_after(node_modules, scope),
            reason,
        ) && path == put_after(put_after(node_modules, scope), child)
}

proof fn emptied_is_left_empty(
    ground: Ground,
    listing: ListingModel,
    node_modules: Seq<char>,
    scope: Seq<char>,
)
    requires
        scope != ".jerky"@,
        holds_scope(listing.entries, scope),
    ensures
        is_emptied(ground, scope, scope_in(listing, scope), put_after(node_modules, scope))
            <==> is_left_empty(ground, listing, node_modules, scope),
{
    let children = scope_in(listing, scope);
    let at = put_after(node_modules, scope);
    assert forall|child: Seq<char>| #[trigger] children.contains_key(child) implies (is_debris(
        ground,
        scope + "/"@ + child,
        children[child],
        at,
    ) <==> is_left_over_inside(ground, listing, scope, child) && is_own(
        ground,
        children[child],
        at,
    )) by {
        reasons_are(ground, children[child], at);
    }
    if is_emptied(ground, scope, children, at) {
        let child = choose|child: Seq<char>| children.contains_key(child);
        assert(children.contains_key(child));
        assert(is_debris(ground, scope + "/"@ + child, children[child], at));
        assert(is_left_over_inside(ground, listing, scope, child));
        assert forall|child: Seq<char>| #[trigger]
            listing.scopes[scope].contains_key(child) implies is_left_over_inside(
            ground,
            listing,
            scope,
            child,
        ) && is_own(ground, listing.scopes[scope][child], at) by {
            assert(children.contains_key(child));
        }
    }
    if is_left_empty(ground, listing, node_modules, scope) {
        let child = choose|child: Seq<char>| #[trigger]
            is_left_over_inside(ground, listing, scope, child);
        assert(children.contains_key(child));
        assert forall|child: Seq<char>| #[trigger] children.contains_key(child) implies is_debris(
            ground,
            scope + "/"@ + child,
            children[child],
            at,
        ) by {
            assert(listing.scopes[scope].contains_key(child));
        }
    }
}

/// What one more name adds.
proof fn one_more_name(
    ground: Ground,
    listing: ListingModel,
    node_modules: Seq<char>,
    names: Set<Seq<char>>,
    last: Seq<char>,
    path: Seq<char>,
    reason: UnownedReason,
)
    ensures
        ({
            let more = names.insert(last);
            let at = put_after(node_modules, last);
            &&& is_to_go(ground, listing, node_modules, more, path) <==> {
                ||| is_to_go(ground, listing, node_modules, names, path)
                ||| is_left_over(ground, listing, last) && is_own(
                    ground,
                    listing.entries[last],
                    node_modules,
                ) && path == at
                ||| exists|child: Seq<char>| #[trigger]
                    is_left_over_inside(ground, listing, last, child) && is_own(
                        ground,
                        listing.scopes[last][child],
                        at,
                    ) && path == put_after(at, child)
            }
            &&& is_to_stay(ground, listing, node_modules, more, path, reason) <==> {
                ||| is_to_stay(ground, listing, node_modules, names, path, reason)
                ||| is_left_over(ground, listing, last) && is_reason(
                    ground,
                    listing.entries[last],
                    node_modules,
                    reason,
                ) && path == at
                ||| exists|child: Seq<char>| #[trigger]
                    is_left_over_inside(ground, listing, last, child) && is_reason(
                        ground,
                        listing.scopes[last][child],
                        at,
                        reason,
                    ) && path == put_after(at, child)
            }
        }),
{
    let more = names.insert(last);
    assert(more.contains(last));
}

proof fn entries_are_cleared(
    ground: Ground,
    listing: ListingModel,
    names: Seq<Seq<char>>,
    node_modules: Seq<char>,
    path: Seq<char>,
    reason: UnownedReason,
)
    requires
        is_listed(listing),
        forall|name: Seq<char>| #[trigger] names.contains(name) ==> listing.entries.contains_key(
            name,
        ),
    ensures
        ({
            let outcome = converged(ground, listing, names, node_modules);
            &&& outcome.remove.contains(path) <==> is_to_go(
                ground,
                listing,
                node_modules,
                names.to_set(),
                path,
            )
            &&& outcome.left_alone.contains(UnownedModel { path, reason }) <==> is_to_stay(
                ground,
                listing,
                node_modules,
                names.to_set(),
                path,
                reason,
            )
            &&& outcome.remove_dirs.contains(path) <==> exists|scope: Seq<char>| #[trigger]
                is_left_empty(ground, listing, node_modules, scope) && names.contains(scope) && path
                    == put_after(node_modules, scope)
        }),
    decreases names.len(),
{
    if names.len() > 0 {
        let shorter = names.drop_last();
        let last = names.last();
        all_but_last(names);
        assert forall|name: Seq<char>| #[trigger] shorter.contains(
            name,
        ) implies listing.entries.contains_key(name) by {
            assert(names.contains(name));
        }
        entries_are_cleared(ground, listing, shorter, node_modules, path, reason);
        assert(names.contains(last));
        assert(names.to_set() =~= shorter.to_set().insert(last)) by {
            assert forall|name: Seq<char>| names.to_set().contains(name)
                <==> shorter.to_set().insert(last).contains(name) by {
                assert(names.contains(name) <==> shorter.contains(name) || name == last);
            }
        }
        one_more_name(ground, listing, node_modules, shorter.to_set(), last, path, reason);
        let before = converged(ground, listing, shorter, node_modules);
        let after = converged(ground, listing, names, node_modules);
        let at = put_after(node_modules, last);
        let children = scope_in(listing, last);
        let inside = in_order::<String>(children.dom());
        let left = UnownedModel { path, reason };
        if last == ".jerky"@ {
        } else if is_scope(listing, last) {
            in_order_lists::<String>(children.dom());
            children_are_decided(ground, last, children, inside, at, before, path, reason);
            assert forall|child: Seq<char>| #[trigger] inside.contains(child)
                && !ground.expected.contains(last + "/"@ + child) <==> is_left_over_inside(
                    ground,
                    listing,
                    last,
                    child,
                ) by {
                assert(inside.to_set().contains(child) <==> children.dom().contains(child));
            }
            let middle = scope_decided(ground, last, children, inside, at, before);
            scope_adds(ground, listing, last, inside, at, path, reason);
            emptied_is_left_empty(ground, listing, node_modules, last);
            one_more(before.remove_dirs, at);
        } else {
            deciding(
                ground,
                last,
                listing.entries[last],
                node_modules,
                at,
                before,
                path,
                reason,
            );
        }
        if after.remove_dirs.contains(path) && !before.remove_dirs.contains(path) {
            assert(is_left_empty(ground, listing, node_modules, last));
        }
        if exists|scope: Seq<char>| #[trigger]
            is_left_empty(ground, listing, node_modules, scope) && names.contains(scope) && path
                == put_after(node_modules, scope) {
            let scope = choose|scope: Seq<char>| #[trigger]
                is_left_empty(ground, listing, node_modules, scope) && names.contains(scope) && path
                    == put_after(node_modules, scope);
            if shorter.contains(scope) {
                assert(before.remove_dirs.contains(path));
            }
            assert(after.remove_dirs.contains(path));
        }
    } else {
        assert(names.to_set() =~= Set::empty());
    }
}

/// What a scope adds is told by its entries.
proof fn scope_adds(
    ground: Ground,
    listing: ListingModel,
    scope: Seq<char>,
    inside: Seq<Seq<char>>,
    at: Seq<char>,
    path: Seq<char>,
    reason: UnownedReason,
)
    requires
        forall|child: Seq<char>| #[trigger]
            inside.contains(child) && !ground.expected.contains(scope + "/"@ + child)
                <==> is_left_over_inside(ground, listing, scope, child),
    ensures
        (exists|child: Seq<char>| #[trigger]
            inside.contains(child) && !ground.expected.contains(scope + "/"@ + child) && is_own(
                ground,
                scope_in(listing, scope)[child],
                at,
            ) && path == put_after(at, child)) <==> (exists|child: Seq<char>| #[trigger]
            is_left_over_inside(ground, listing, scope, child) && is_own(
                ground,
                listing.scopes[scope][child],
                at,
            ) && path == put_after(at, child)),
        (exists|child: Seq<char>| #[trigger]
            inside.contains(child) && !ground.expected.contains(scope + "/"@ + child) && is_reason(
                ground,
                scope_in(listing, scope)[child],
                at,
                reason,
            ) && path == put_after(at, child)) <==> (exists|child: Seq<char>| #[trigger]
            is_left_over_inside(ground, listing, scope, child) && is_reason(
                ground,
                listing.scopes[scope][child],
                at,
                reason,
            ) && path == put_after(at, child)),
{
    if exists|child: Seq<char>| #[trigger]
        is_left_over_inside(ground, listing, scope, child) && is_own(
            ground,
            listing.scopes[scope][child],
            at,
        ) && path == put_after(at, child) {
        let child = choose|child: Seq<char>| #[trigger]
            is_left_over_inside(ground, listing, scope, child) && is_own(
                ground,
                listing.scopes[scope][child],
                at,
            ) && path == put_after(at, child);
        assert(inside.contains(child));
    }
    if exists|child: Seq<char>| #[trigger]
        is_left_over_inside(ground, listing, scope, child) && is_reason(
            ground,
            listing.scopes[scope][child],
            at,
            reason,
        ) && path == put_after(at, child) {
        let child = choose|child: Seq<char>| #[trigger]
            is_left_over_inside(ground, listing, scope, child) && is_reason(
                ground,
                listing.scopes[scope][child],
                at,
                reason,
            ) && path == put_after(at, child);
        assert(inside.contains(child));
    }
}

/// Clearing a project removes exactly what is left over and jerky's, says of
/// exactly what is left over and not jerky's why it stays, and takes away
/// exactly the scopes that it empties.
pub proof fn clearing_tells_what_is_whose(
    importer_dir: &str,
    workspace_root: &str,
    members: &SortedSet<String>,
    expected: &SortedSet<String>,
    listing: &Listing,
    outcome: Converged,
    path: Seq<char>,
    reason: UnownedReason,
)
    requires
        is_listed(listing.deep_view()),
        call_ensures(converge, (importer_dir, workspace_root, members, expected, listing), outcome),
    ensures
        ({
            let ground = Ground {
                virtual_store: put_after(put_after(workspace_root@, "node_modules"@), ".jerky"@),
                members: members.deep_view(),
                expected: expected.deep_view(),
            };
            let node_modules = put_after(importer_dir@, "node_modules"@);
            let found = listing.deep_view();
            let all = found.entries.dom();
            &&& outcome.deep_view().remove.contains(path) <==> is_to_go(
                ground,
                found,
                node_modules,
                all,
                path,
            )
            &&& outcome.deep_view().left_alone.contains(UnownedModel { path, reason })
                <==> is_to_stay(ground, found, node_modules, all, path, reason)
            &&& outcome.deep_view().remove_dirs.contains(path) <==> exists|scope: Seq<char>|
                #[trigger] is_left_empty(ground, found, node_modules, scope) && path == put_after(
                    node_modules,
                    scope,
                )
        }),
{
    let ground = Ground {
        virtual_store: put_after(put_after(workspace_root@, "node_modules"@), ".jerky"@),
        members: members.deep_view(),
        expected: expected.deep_view(),
    };
    let node_modules = put_after(importer_dir@, "node_modules"@);
    let found = listing.deep_view();
    let names = in_order::<String>(found.entries.dom());
    in_order_lists::<String>(found.entries.dom());
    assert forall|name: Seq<char>| #[trigger] names.contains(name) <==> found.entries.contains_key(
        name,
    ) by {
        assert(names.to_set().contains(name) <==> found.entries.dom().contains(name));
    }
    entries_are_cleared(ground, found, names, node_modules, path, reason);
    assert forall|scope: Seq<char>| #[trigger]
        is_left_empty(ground, found, node_modules, scope) implies names.contains(scope) by {}
}

} // verus!
