//! What pruning a virtual store comes to: everything that is not expected
//! goes, and nothing else does.

use vstd::prelude::*;
use crate::linker::{
    is_scope, prune_virtual_store, pruned, scope_in, scope_pruned, FoundModel, Listing,
    ListingModel, Pruned, VIRTUAL_STORE_DIR,
};
use crate::path::put_after;
use crate::sorted::{in_order, in_order_lists, SortedSet};

verus! {

/// Is there a directory of a scope's name among what was found? A link or a
/// file of such a name is an ordinary entry.
pub open spec fn holds_scope(entries: Map<Seq<char>, FoundModel>, name: Seq<char>) -> bool {
    entries.contains_key(name) && name.len() > 0 && name[0] == '@' && entries[name] is Directory
}

/// Is a listed entry to go: an ordinary one, that nobody expects?
pub open spec fn is_stale(
    expected: Set<Seq<char>>,
    listing: ListingModel,
    name: Seq<char>,
) -> bool {
    &&& listing.entries.contains_key(name)
    &&& name != ".staging"@
    &&& !holds_scope(listing.entries, name)
    &&& !expected.contains(name)
}

/// Is an entry of a scope to go: one that nobody expects under its full name?
pub open spec fn is_stale_inside(
    expected: Set<Seq<char>>,
    listing: ListingModel,
    scope: Seq<char>,
    child: Seq<char>,
) -> bool {
    &&& scope != ".staging"@
    &&& holds_scope(listing.entries, scope)
    &&& listing.scopes.contains_key(scope)
    &&& listing.scopes[scope].contains_key(child)
    &&& !expected.contains(scope + "/"@ + child)
}

/// Is nothing in a scope expected?
pub open spec fn is_stale_scope(
    expected: Set<Seq<char>>,
    listing: ListingModel,
    scope: Seq<char>,
) -> bool {
    &&& scope != ".staging"@
    &&& holds_scope(listing.entries, scope)
    &&& forall|child: Seq<char>|
        listing.scopes.contains_key(scope) && #[trigger] listing.scopes[scope].contains_key(child)
            ==> !expected.contains(scope + "/"@ + child)
}

/// Was every scope listed to its end?
pub open spec fn is_listed(listing: ListingModel) -> bool {
    &&& listing.entries.dom().finite()
    &&& forall|name: Seq<char>| #[trigger] listing.scopes.contains_key(name)
        ==> listing.scopes[name].dom().finite()
}

pub(crate) proof fn one_more(all: Seq<Seq<char>>, added: Seq<char>)
    ensures
        forall|path: Seq<char>| #[trigger] all.push(added).contains(path) <==> all.contains(path)
            || path == added,
{
    let more = all.push(added);
    assert(more[all.len() as int] == added);
    assert forall|path: Seq<char>| #[trigger] more.contains(path) <==> all.contains(path) || path
        == added by {
        if all.contains(path) {
            assert(more[all.index_of(path)] == path);
        }
        if more.contains(path) && path != added {
            assert(all[more.index_of(path)] == path);
        }
    }
}

pub(crate) proof fn all_but_last(names: Seq<Seq<char>>)
    requires
        names.len() > 0,
    ensures
        forall|name: Seq<char>| #[trigger] names.contains(name) <==> names.drop_last().contains(
            name,
        ) || name == names.last(),
{
    assert(names =~= names.drop_last().push(names.last()));
    one_more(names.drop_last(), names.last());
}

proof fn stale_children_go(
    expected: Set<Seq<char>>,
    scope: Seq<char>,
    names: Seq<Seq<char>>,
    parent: Seq<char>,
    before: Seq<Seq<char>>,
    path: Seq<char>,
)
    ensures
        scope_pruned(expected, scope, names, parent, before).contains(path) <==> before.contains(
            path,
        ) || exists|child: Seq<char>| #[trigger]
            names.contains(child) && !expected.contains(scope + "/"@ + child) && path == put_after(
                parent,
                child,
            ),
    decreases names.len(),
{
    if names.len() > 0 {
        let shorter = names.drop_last();
        let last = names.last();
        stale_children_go(expected, scope, shorter, parent, before, path);
        all_but_last(names);
        let so_far = scope_pruned(expected, scope, shorter, parent, before);
        one_more(so_far, put_after(parent, last));
        if exists|child: Seq<char>| #[trigger]
            shorter.contains(child) && !expected.contains(scope + "/"@ + child) && path
                == put_after(parent, child) {
            let child = choose|child: Seq<char>| #[trigger]
                shorter.contains(child) && !expected.contains(scope + "/"@ + child) && path
                    == put_after(parent, child);
            assert(names.contains(child));
        }
        if exists|child: Seq<char>| #[trigger]
            names.contains(child) && !expected.contains(scope + "/"@ + child) && path == put_after(
                parent,
                child,
            ) {
            let child = choose|child: Seq<char>| #[trigger]
                names.contains(child) && !expected.contains(scope + "/"@ + child) && path
                    == put_after(parent, child);
            assert(child == last || shorter.contains(child));
        }
        assert(names.contains(last));
    }
}

proof fn stale_entries_go(
    expected: Set<Seq<char>>,
    listing: ListingModel,
    names: Seq<Seq<char>>,
    store: Seq<char>,
    path: Seq<char>,
)
    requires
        is_listed(listing),
        forall|name: Seq<char>| #[trigger] names.contains(name) ==> listing.entries.contains_key(
            name,
        ),
    ensures
        pruned(expected, listing, names, store).remove.contains(path) <==> {
            ||| exists|name: Seq<char>| #[trigger]
                is_stale(expected, listing, name) && names.contains(name) && path == put_after(
                    store,
                    name,
                )
            ||| exists|scope: Seq<char>, child: Seq<char>| #[trigger]
                is_stale_inside(expected, listing, scope, child) && names.contains(scope) && path
                    == put_after(put_after(store, scope), child)
        },
        pruned(expected, listing, names, store).remove_dirs.contains(path) <==> exists|
            scope: Seq<char>,
        | #[trigger]
            is_stale_scope(expected, listing, scope) && names.contains(scope) && path == put_after(
                store,
                scope,
            ),
    decreases names.len(),
{
    if names.len() > 0 {
        let shorter = names.drop_last();
        let last = names.last();
        all_but_last(names);
        assert forall|name: Seq<char>| #[trigger] shorter.contains(
            name,
        ) implies listing.entries.contains_key(name) by {
            assert(names.contains(name));
        }
        stale_entries_go(expected, listing, shorter, store, path);
        assert(names.contains(last));
        assert(listing.entries.contains_key(last));
        let before = pruned(expected, listing, shorter, store);
        let after = pruned(expected, listing, names, store);
        let at = put_after(store, last);
        one_more(before.remove, at);
        one_more(before.remove_dirs, at);
        let children = scope_in(listing, last);
        let inside = in_order::<String>(children.dom());
        if last != ".staging"@ && is_scope(listing, last) {
            in_order_lists::<String>(children.dom());
            stale_children_go(expected, last, inside, at, before.remove, path);
            assert forall|child: Seq<char>| #[trigger] inside.contains(child)
                <==> children.contains_key(child) by {
                assert(inside.to_set().contains(child) <==> children.dom().contains(child));
            }
            assert(is_stale_scope(expected, listing, last) <==> forall|child: Seq<char>| #[trigger]
                children.contains_key(child) ==> !expected.contains(last + "/"@ + child)) by {
                if is_stale_scope(expected, listing, last) {
                    assert forall|child: Seq<char>| #[trigger]
                        children.contains_key(child) implies !expected.contains(
                        last + "/"@ + child,
                    ) by {
                        assert(listing.scopes[last].contains_key(child));
                    }
                }
                if forall|child: Seq<char>| #[trigger]
                    children.contains_key(child) ==> !expected.contains(last + "/"@ + child) {
                    assert forall|child: Seq<char>|
                        listing.scopes.contains_key(last)
                            && #[trigger] listing.scopes[last].contains_key(
                            child,
                        ) implies !expected.contains(last + "/"@ + child) by {
                        assert(children.contains_key(child));
                    }
                }
            }
        }
        // What goes has a place among the names.
        if after.remove.contains(path) {
            if before.remove.contains(path) {
            } else if is_scope(listing, last) {
                let child = choose|child: Seq<char>| #[trigger]
                    inside.contains(child) && !expected.contains(last + "/"@ + child) && path
                        == put_after(at, child);
                assert(children.contains_key(child));
                assert(is_stale_inside(expected, listing, last, child));
            } else {
                assert(is_stale(expected, listing, last));
            }
        }
        if exists|name: Seq<char>| #[trigger]
            is_stale(expected, listing, name) && names.contains(name) && path == put_after(
                store,
                name,
            ) {
            let name = choose|name: Seq<char>| #[trigger]
                is_stale(expected, listing, name) && names.contains(name) && path == put_after(
                    store,
                    name,
                );
            if shorter.contains(name) {
                assert(before.remove.contains(path));
            }
            assert(after.remove.contains(path));
        }
        if exists|scope: Seq<char>, child: Seq<char>| #[trigger]
            is_stale_inside(expected, listing, scope, child) && names.contains(scope) && path
                == put_after(put_after(store, scope), child) {
            let (scope, child) = choose|scope: Seq<char>, child: Seq<char>| #[trigger]
                is_stale_inside(expected, listing, scope, child) && names.contains(scope) && path
                    == put_after(put_after(store, scope), child);
            if shorter.contains(scope) {
                assert(before.remove.contains(path));
            } else {
                assert(inside.contains(child));
            }
            assert(after.remove.contains(path));
        }
        if after.remove_dirs.contains(path) && !before.remove_dirs.contains(path) {
            assert(is_stale_scope(expected, listing, last));
        }
        if exists|scope: Seq<char>| #[trigger]
            is_stale_scope(expected, listing, scope) && names.contains(scope) && path == put_after(
                store,
                scope,
            ) {
            let scope = choose|scope: Seq<char>| #[trigger]
                is_stale_scope(expected, listing, scope) && names.contains(scope) && path
                    == put_after(store, scope);
            if shorter.contains(scope) {
                assert(before.remove_dirs.contains(path));
            }
            assert(after.remove_dirs.contains(path));
        }
    }
}

/// A path is removed from a virtual store if and only if it is the place of
/// something that was listed and that nobody expects: an entry that is no
/// scope, or an entry inside a scope under its full name. The staging
/// directory stays. A scope is removed after that if and only if nothing in it
/// was expected.
pub proof fn exactly_stale_entries_are_pruned(
    expected: Set<Seq<char>>,
    listing: ListingModel,
    store: Seq<char>,
    path: Seq<char>,
)
    requires
        is_listed(listing),
    ensures
        ({
            let outcome = pruned(
                expected,
                listing,
                in_order::<String>(listing.entries.dom()),
                store,
            );
            &&& outcome.remove.contains(path) <==> {
                ||| exists|name: Seq<char>| #[trigger]
                    is_stale(expected, listing, name) && path == put_after(store, name)
                ||| exists|scope: Seq<char>, child: Seq<char>| #[trigger]
                    is_stale_inside(expected, listing, scope, child) && path == put_after(
                        put_after(store, scope),
                        child,
                    )
            }
            &&& outcome.remove_dirs.contains(path) <==> exists|scope: Seq<char>| #[trigger]
                is_stale_scope(expected, listing, scope) && path == put_after(store, scope)
        }),
{
    let names = in_order::<String>(listing.entries.dom());
    in_order_lists::<String>(listing.entries.dom());
    assert forall|name: Seq<char>| #[trigger] names.contains(name)
        <==> listing.entries.contains_key(name) by {
        assert(names.to_set().contains(name) <==> listing.entries.dom().contains(name));
    }
    stale_entries_go(expected, listing, names, store, path);
    assert forall|name: Seq<char>| #[trigger] is_stale(expected, listing, name) implies names.contains(
        name,
    ) by {}
    assert forall|scope: Seq<char>, child: Seq<char>| #[trigger]
        is_stale_inside(expected, listing, scope, child) implies names.contains(scope) by {}
    assert forall|scope: Seq<char>| #[trigger]
        is_stale_scope(expected, listing, scope) implies names.contains(scope) by {}
}

/// Pruning what a listing of the virtual store holds takes away exactly what
/// is stale in it, below `.jerky` in `node_modules`.
pub proof fn pruning_takes_what_is_stale(
    node_modules: &str,
    expected: &SortedSet<String>,
    listing: &Listing,
    outcome: Pruned,
    path: Seq<char>,
)
    requires
        is_listed(listing.deep_view()),
        call_ensures(prune_virtual_store, (node_modules, expected, listing), outcome),
    ensures
        ({
            let store = put_after(node_modules@, ".jerky"@);
            let wanted = expected.deep_view();
            let found = listing.deep_view();
            &&& outcome.deep_view().remove.contains(path) <==> {
                ||| exists|name: Seq<char>| #[trigger]
                    is_stale(wanted, found, name) && path == put_after(store, name)
                ||| exists|scope: Seq<char>, child: Seq<char>| #[trigger]
                    is_stale_inside(wanted, found, scope, child) && path == put_after(
                        put_after(store, scope),
                        child,
                    )
            }
            &&& outcome.deep_view().remove_dirs.contains(path) <==> exists|
                scope: Seq<char>,
            | #[trigger]
                is_stale_scope(wanted, found, scope) && path == put_after(store, scope)
        }),
{
    exactly_stale_entries_are_pruned(
        expected.deep_view(),
        listing.deep_view(),
        put_after(node_modules@, ".jerky"@),
        path,
    );
    assert(VIRTUAL_STORE_DIR@ == ".jerky"@);
}

} // verus!
