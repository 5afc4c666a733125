//! What every link that is written keeps: it leads to the place it was made
//! for, and it is recognised as jerky's own.

use vstd::prelude::*;
use crate::linker::{
    converged, copy_tree, hard_link_tree, holder_of, is_debris, is_scope, package_place,
    path_from, place_symlink, resolved, scope_decided, scope_in, starts_with, step_text,
    store_place, together, unowned_reason, way_between, ConvergedModel, Found, FoundModel, Ground,
    LinkError, ListingModel, Placing, Recreate, TreeEntry, TreeOp, TreeOpModel, VIRTUAL_STORE_DIR,
};
use crate::importer::{climbs, depth_of, is_importer, path_between, root_path};
use crate::lockfile::{net, stays_inside};
use crate::sorted::{in_order, in_order_lists};
use crate::path::{
    is_absolute, is_plain, plain_names, plain_names_of_plainly, plain_steps, plainly, put_after,
    spelled, step_of, steps, steps_of, steps_of_spelled, Step,
};
use crate::text::{joined, pieces, pieces_nonempty, pieces_of_joined};

verus! {

/// Do the steps start at the root and go down by plain names alone?
pub open spec fn is_rooted(taken: Seq<Step>) -> bool {
    &&& taken.len() > 0
    &&& taken[0] is Root
    &&& forall|i: int| 1 <= i < taken.len() ==> #[trigger] taken[i] is Normal
}

/// Does a relative path go down by plain names alone?
pub open spec fn is_below(path: Seq<char>) -> bool {
    &&& !is_absolute(path)
    &&& forall|i: int|
        0 <= i < steps_of(pieces(path, '/')).len() ==> #[trigger] steps_of(pieces(path, '/'))[i]
            is Normal
}

proof fn pieces_of_sum(a: Seq<char>, b: Seq<char>)
    ensures
        pieces(a.push('/') + b, '/') == pieces(a, '/') + pieces(b, '/'),
    decreases b.len(),
{
    let whole = a.push('/') + b;
    pieces_nonempty(a, '/');
    pieces_nonempty(b, '/');
    if b.len() == 0 {
        assert(whole =~= a.push('/'));
        assert(whole.drop_last() =~= a);
        assert(pieces(whole, '/') =~= pieces(a, '/') + pieces(b, '/'));
    } else {
        assert(whole.drop_last() =~= a.push('/') + b.drop_last());
        pieces_of_sum(a, b.drop_last());
        pieces_nonempty(b.drop_last(), '/');
        assert(pieces(whole, '/') =~= pieces(a, '/') + pieces(b, '/'));
    }
}

proof fn steps_of_sum(a: Seq<Seq<char>>, b: Seq<Seq<char>>)
    ensures
        steps_of(a + b) == steps_of(a) + steps_of(b),
    decreases b.len(),
{
    if b.len() == 0 {
        assert(a + b =~= a);
        assert(steps_of(a) + steps_of(b) =~= steps_of(a));
    } else {
        assert((a + b).drop_last() =~= a + b.drop_last());
        steps_of_sum(a, b.drop_last());
        assert(steps_of(a + b) =~= steps_of(a) + steps_of(b));
    }
}

/// Putting one path after another takes the steps of the one and then those
/// of the other.
pub proof fn joining_adds_steps(base: Seq<char>, rest: Seq<char>)
    requires
        base.len() > 0,
        !is_absolute(rest),
    ensures
        steps(put_after(base, rest)) == steps(base) + steps_of(pieces(rest, '/')),
        is_absolute(put_after(base, rest)) == is_absolute(base),
{
    pieces_nonempty(base, '/');
    pieces_nonempty(rest, '/');
    if base.last() == '/' {
        let head = base.drop_last();
        pieces_nonempty(head, '/');
        assert(base =~= head.push('/'));
        assert(base + rest =~= head.push('/') + rest);
        pieces_of_sum(head, rest);
        steps_of_sum(pieces(head, '/'), pieces(rest, '/'));
        let all = pieces(base, '/');
        assert(all.drop_last() =~= pieces(head, '/'));
        assert(all.last() =~= Seq::<char>::empty());
        assert(steps_of(all) =~= steps_of(pieces(head, '/')));
        assert(all[0] == pieces(head, '/')[0]);
        assert(pieces(base + rest, '/')[0] == pieces(head, '/')[0]);
    } else {
        pieces_of_sum(base, rest);
        steps_of_sum(pieces(base, '/'), pieces(rest, '/'));
        assert(pieces(base.push('/') + rest, '/')[0] == pieces(base, '/')[0]);
    }
    assert(steps(put_after(base, rest)) =~= steps(base) + steps_of(pieces(rest, '/')));
}

proof fn normal_is_named(taken: Seq<Step>, i: int)
    requires
        0 <= i < taken.len(),
        taken[i] is Normal,
    ensures
        plain_names(taken).contains(taken[i]->Normal_0),
    decreases taken.len(),
{
    let last = taken.len() - 1;
    if i == last {
        let before = plain_names(taken.drop_last());
        assert(plain_names(taken)[before.len() as int] == taken[i]->Normal_0);
    } else {
        assert(taken.drop_last()[i] == taken[i]);
        normal_is_named(taken.drop_last(), i);
        let before = plain_names(taken.drop_last());
        let k = before.index_of(taken[i]->Normal_0);
        assert(plain_names(taken)[k] == taken[i]->Normal_0);
    }
}

/// Every plain step of a path has a plain name.
proof fn names_are_plain(path: Seq<char>, i: int)
    requires
        0 <= i < steps(path).len(),
        steps(path)[i] is Normal,
    ensures
        is_plain(steps(path)[i]->Normal_0),
{
    plain_steps(path);
    normal_is_named(steps(path), i);
    let names = plain_names(steps(path));
    let k = names.index_of(steps(path)[i]->Normal_0);
    assert(is_plain(names[k]));
}

/// Is this a climb, or a step down to a plain name?
spec fn is_travel(step: Step) -> bool {
    step is Parent || (step is Normal && is_plain(step->Normal_0))
}

proof fn steps_of_travel(way: Seq<Step>)
    requires
        forall|i: int| 0 <= i < way.len() ==> is_travel(#[trigger] way[i]),
    ensures
        steps_of(way.map_values(|step: Step| step_text(step))) == way,
    decreases way.len(),
{
    let texts = way.map_values(|step: Step| step_text(step));
    if way.len() == 0 {
        assert(steps_of(texts) =~= way);
    } else {
        let before = way.drop_last();
        assert forall|i: int| 0 <= i < before.len() implies is_travel(#[trigger] before[i]) by {
            assert(before[i] == way[i]);
        }
        steps_of_travel(before);
        assert(texts.drop_last() =~= before.map_values(|step: Step| step_text(step)));
        assert(is_travel(way[way.len() - 1]));
        let last = step_text(way.last());
        assert(texts.last() == last);
        assert(step_of(last) =~= seq![way.last()]);
        assert(steps_of(texts) =~= way);
    }
}

/// The steps that a spelled way takes.
proof fn way_reads_back(way: Seq<Step>)
    requires
        forall|i: int| 0 <= i < way.len() ==> is_travel(#[trigger] way[i]),
    ensures
        ({
            let text = joined(way.map_values(|step: Step| step_text(step)), '/');
            steps_of(pieces(text, '/')) == way && !is_absolute(text)
        }),
{
    let texts = way.map_values(|step: Step| step_text(step));
    let text = joined(texts, '/');
    if way.len() == 0 {
        assert(text =~= Seq::<char>::empty());
        assert(pieces(text, '/') =~= seq![Seq::<char>::empty()]);
        assert(pieces(text, '/').drop_last() =~= seq![]);
        assert(steps_of(pieces(text, '/').drop_last()) =~= seq![]);
        assert(steps_of(pieces(text, '/')) =~= way);
    } else {
        assert forall|i: int| 0 <= i < texts.len() implies !(#[trigger] texts[i]).contains(
            '/',
        ) by {
            assert(is_travel(way[i]));
        }
        pieces_of_joined(texts, '/');
        steps_of_travel(way);
        opens_as_first(texts);
        assert(is_travel(way[0]));
        assert(texts[0].len() > 0);
        if is_absolute(text) {
            assert(texts[0][0] == '/');
            assert(texts[0].contains('/'));
        }
    }
}

proof fn opens_as_first(texts: Seq<Seq<char>>)
    requires
        texts.len() > 0,
        texts[0].len() > 0,
    ensures
        joined(texts, '/').len() > 0,
        joined(texts, '/')[0] == texts[0][0],
    decreases texts.len(),
{
    if texts.len() > 1 {
        opens_as_first(texts.drop_last());
    }
}

proof fn rooted_is_resolved(taken: Seq<Step>)
    requires
        is_rooted(taken),
    ensures
        resolved(taken) == taken,
    decreases taken.len(),
{
    let before = taken.drop_last();
    if before.len() == 0 {
        assert(resolved(before) =~= seq![]);
        assert(resolved(taken) =~= taken);
    } else {
        assert(is_rooted(before)) by {
            assert forall|i: int| 1 <= i < before.len() implies #[trigger] before[i] is Normal by {
                assert(before[i] == taken[i]);
            }
        }
        rooted_is_resolved(before);
        assert(taken[taken.len() - 1] is Normal);
        assert(resolved(taken) =~= taken);
    }
}

/// Climbing out of a rooted place lands on what is above it.
proof fn climbing(taken: Seq<Step>, up: nat)
    requires
        is_rooted(taken),
        up < taken.len(),
    ensures
        resolved(taken + Seq::new(up, |i: int| Step::Parent)) == taken.take(
            taken.len() - up,
        ),
    decreases up,
{
    let climbs = Seq::new(up, |i: int| Step::Parent);
    if up == 0 {
        assert(taken + climbs =~= taken);
        rooted_is_resolved(taken);
        assert(taken.take(taken.len() as int) =~= taken);
    } else {
        let fewer = Seq::new((up - 1) as nat, |i: int| Step::Parent);
        assert((taken + climbs).drop_last() =~= taken + fewer);
        climbing(taken, (up - 1) as nat);
        let above = taken.take(taken.len() - up + 1);
        assert(above.last() == taken[taken.len() - up]);
        assert(taken[taken.len() - up] is Normal);
        assert(above.drop_last() =~= taken.take(taken.len() - up));
    }
}

/// Going down from anywhere resolves to just that.
proof fn descending(taken: Seq<Step>, down: Seq<Step>)
    requires
        forall|i: int| 0 <= i < down.len() ==> #[trigger] down[i] is Normal,
    ensures
        resolved(taken + down) == resolved(taken) + down,
    decreases down.len(),
{
    if down.len() == 0 {
        assert(taken + down =~= taken);
        assert(resolved(taken) + down =~= resolved(taken));
    } else {
        let before = down.drop_last();
        assert forall|i: int| 0 <= i < before.len() implies #[trigger] before[i] is Normal by {
            assert(before[i] == down[i]);
        }
        descending(taken, before);
        assert((taken + down).drop_last() =~= taken + before);
        assert(down[down.len() - 1] is Normal);
        assert(resolved(taken + down) =~= resolved(taken) + down);
    }
}

proof fn together_is_shared(a: Seq<Step>, b: Seq<Step>)
    ensures
        together(a, b) <= a.len(),
        together(a, b) <= b.len(),
        a.take(together(a, b) as int) == b.take(together(a, b) as int),
        a.len() > 0 && b.len() > 0 && a[0] == b[0] ==> together(a, b) > 0,
    decreases a.len(),
{
    if a.len() > 0 && b.len() > 0 && a[0] == b[0] {
        together_is_shared(a.drop_first(), b.drop_first());
        let k = together(a.drop_first(), b.drop_first()) as int;
        assert(a.take(k + 1) =~= seq![a[0]] + a.drop_first().take(k));
        assert(b.take(k + 1) =~= seq![b[0]] + b.drop_first().take(k));
    } else {
        assert(a.take(0) =~= b.take(0));
    }
}

/// A relative path leads from the one place exactly to the other, wherever the
/// two lie.
pub proof fn relative_paths_arrive(from: Seq<char>, to: Seq<char>)
    requires
        is_rooted(steps(from)),
        is_rooted(steps(to)),
    ensures
        resolved(steps(put_after(from, path_from(from, to)))) == steps(to),
{
    let a = steps(from);
    let b = steps(to);
    together_is_shared(a, b);
    let k = together(a, b) as int;
    let way = way_between(a, b);
    let up = (a.len() - k) as nat;
    let climbs = Seq::new(up, |i: int| Step::Parent);
    let down = b.skip(k);
    assert forall|i: int| 0 <= i < way.len() implies is_travel(#[trigger] way[i]) by {
        if i >= up {
            let j = i - up + k;
            assert(way[i] == b[j]);
            assert(b[j] is Normal);
            names_are_plain(to, j);
        }
    }
    way_reads_back(way);
    assert(from.len() > 0) by {
        if from.len() == 0 {
            assert(pieces(from, '/') =~= seq![Seq::<char>::empty()]);
            assert(pieces(from, '/').drop_last() =~= seq![]);
            assert(steps_of(pieces(from, '/').drop_last()) =~= seq![]);
            assert(steps(from) =~= seq![]);
        }
    }
    joining_adds_steps(from, path_from(from, to));
    assert(a + way =~= (a + climbs) + down);
    assert forall|i: int| 0 <= i < down.len() implies #[trigger] down[i] is Normal by {
        assert(down[i] == b[i + k]);
    }
    climbing(a, up);
    descending(a + climbs, down);
    assert(a.take(k) + down =~= b);
}

/// A link that leads into the virtual store, or onto a member, is recognised
/// as jerky's, whether or not anything is there.
pub proof fn own_links_are_recognised(
    holder: Seq<char>,
    place: Seq<char>,
    virtual_store: Seq<char>,
    members: Set<Seq<char>>,
)
    requires
        is_rooted(steps(holder)),
        is_rooted(steps(place)),
        starts_with(steps(place), steps(virtual_store)) || members.contains(place),
    ensures
        unowned_reason(
            FoundModel::Link(path_from(holder, place)),
            holder,
            virtual_store,
            members,
        ) is None,
{
    relative_paths_arrive(holder, place);
}

proof fn below_rooted(base: Seq<char>, rest: Seq<char>)
    requires
        is_rooted(steps(base)),
        is_below(rest),
    ensures
        is_rooted(steps(put_after(base, rest))),
        starts_with(steps(put_after(base, rest)), steps(base)),
{
    assert(base.len() > 0) by {
        if base.len() == 0 {
            assert(pieces(base, '/') =~= seq![Seq::<char>::empty()]);
            assert(pieces(base, '/').drop_last() =~= seq![]);
            assert(steps_of(pieces(base, '/').drop_last()) =~= seq![]);
            assert(steps(base) =~= seq![]);
        }
    }
    joining_adds_steps(base, rest);
    let all = steps(put_after(base, rest));
    let more = steps_of(pieces(rest, '/'));
    assert forall|i: int| 1 <= i < all.len() implies #[trigger] all[i] is Normal by {
        if i < steps(base).len() {
            assert(all[i] == steps(base)[i]);
        } else {
            assert(all[i] == more[i - steps(base).len()]);
        }
    }
    assert(all.take(steps(base).len() as int) =~= steps(base));
}

proof fn starting_is_transitive(a: Seq<Step>, b: Seq<Step>, c: Seq<Step>)
    requires
        starts_with(a, b),
        starts_with(b, c),
    ensures
        starts_with(a, c),
{
    assert(a.take(c.len() as int) =~= a.take(b.len() as int).take(c.len() as int));
}

proof fn node_modules_is_below()
    ensures
        is_below("node_modules"@),
{
    reveal_strlit("node_modules");
    let name = "node_modules"@;
    let chars = seq!['n', 'o', 'd', 'e', '_', 'm', 'o', 'd', 'u', 'l', 'e', 's'];
    assert(name =~= chars);
    assert(is_plain(name));
    crate::path::steps_of_spelled(seq![name]);
    assert(crate::path::spelled(seq![name]) =~= name);
    let all = steps(name);
    let segments = pieces(name, '/');
    pieces_of_joined(seq![name], '/');
    assert(segments =~= seq![name]);
    assert(segments.drop_last() =~= seq![]);
    assert(steps_of(segments.drop_last()) =~= seq![]);
    assert(steps_of(segments) =~= seq![Step::Normal(name)]);
}

/// The link at a dependency that is written into a project is recognised as
/// jerky's when the project is next looked at.
pub proof fn dependency_links_are_recognised(
    importer_dir: Seq<char>,
    workspace_root: Seq<char>,
    link_name: Seq<char>,
    dir_name: Seq<char>,
    pkg_name: Seq<char>,
    members: Set<Seq<char>>,
)
    requires
        is_rooted(steps(importer_dir)),
        is_rooted(steps(store_place(workspace_root))),
        is_rooted(steps(holder_of(put_after(importer_dir, "node_modules"@), link_name))),
        is_below(dir_name),
        is_below(pkg_name),
    ensures
        ({
            let store = store_place(workspace_root);
            let holder = holder_of(put_after(importer_dir, "node_modules"@), link_name);
            unowned_reason(
                FoundModel::Link(path_from(holder, package_place(store, dir_name, pkg_name))),
                holder,
                store,
                members,
            ) is None
        }),
{
    let store = store_place(workspace_root);
    let holder = holder_of(put_after(importer_dir, "node_modules"@), link_name);
    node_modules_is_below();
    let entry = put_after(store, dir_name);
    let inside = put_after(entry, "node_modules"@);
    let place = package_place(store, dir_name, pkg_name);
    below_rooted(store, dir_name);
    below_rooted(entry, "node_modules"@);
    below_rooted(inside, pkg_name);
    starting_is_transitive(steps(inside), steps(entry), steps(store));
    starting_is_transitive(steps(place), steps(inside), steps(store));
    own_links_are_recognised(holder, place, store, members);
}

/// Is this path that of an entry, or of an entry in a scope, which is not
/// expected and is provably jerky's?
pub open spec fn is_own_debris(
    ground: Ground,
    listing: ListingModel,
    node_modules: Seq<char>,
    path: Seq<char>,
) -> bool {
    ||| exists|name: Seq<char>| #[trigger]
        is_plain_debris(ground, listing, node_modules, name) && path == put_after(
            node_modules,
            name,
        )
    ||| exists|scope: Seq<char>, child: Seq<char>| #[trigger]
        is_scoped_debris(ground, listing, node_modules, scope, child) && path == put_after(
            put_after(node_modules, scope),
            child,
        )
}

/// Is this entry to be removed?
pub open spec fn is_plain_debris(
    ground: Ground,
    listing: ListingModel,
    node_modules: Seq<char>,
    name: Seq<char>,
) -> bool {
    &&& listing.entries.contains_key(name)
    &&& name != VIRTUAL_STORE_DIR@
    &&& !is_scope(listing, name)
    &&& is_debris(ground, name, listing.entries[name], node_modules)
}

/// Is this entry in a scope to be removed?
pub open spec fn is_scoped_debris(
    ground: Ground,
    listing: ListingModel,
    node_modules: Seq<char>,
    scope: Seq<char>,
    child: Seq<char>,
) -> bool {
    &&& listing.entries.contains_key(scope)
    &&& scope != VIRTUAL_STORE_DIR@
    &&& is_scope(listing, scope)
    &&& scope_in(listing, scope).contains_key(child)
    &&& is_debris(
        ground,
        scope + "/"@ + child,
        scope_in(listing, scope)[child],
        put_after(node_modules, scope),
    )
}

proof fn scopes_are_decided(
    ground: Ground,
    scope: Seq<char>,
    children: Map<Seq<char>, FoundModel>,
    names: Seq<Seq<char>>,
    parent: Seq<char>,
    before: ConvergedModel,
    path: Seq<char>,
)
    ensures
        scope_decided(ground, scope, children, names, parent, before).remove.contains(path) <==> {
            ||| before.remove.contains(path)
            ||| exists|child: Seq<char>| #[trigger]
                names.contains(child) && is_debris(
                    ground,
                    scope + "/"@ + child,
                    children[child],
                    parent,
                ) && path == put_after(parent, child)
        },
    decreases names.len(),
{
    if names.len() > 0 {
        let shorter = names.drop_last();
        scopes_are_decided(ground, scope, children, shorter, parent, before, path);
        let so_far = scope_decided(ground, scope, children, shorter, parent, before);
        let last = names.last();
        assert(names.contains(last));
        assert forall|child: Seq<char>| #[trigger] names.contains(child) implies shorter.contains(
            child,
        ) || child == last by {
            let i = names.index_of(child);
            if i < shorter.len() {
                assert(shorter[i] == child);
            }
        }
        assert forall|child: Seq<char>| #[trigger] shorter.contains(child) implies names.contains(
            child,
        ) by {
            let i = shorter.index_of(child);
            assert(names[i] == child);
        }
        pushed_contains(so_far.remove, put_after(parent, last), path);
    }
}

proof fn pushed_contains(all: Seq<Seq<char>>, added: Seq<char>, path: Seq<char>)
    ensures
        all.push(added).contains(path) <==> all.contains(path) || path == added,
{
    let more = all.push(added);
    assert(more[all.len() as int] == added);
    if all.contains(path) {
        let i = all.index_of(path);
        assert(more[i] == path);
    }
    if more.contains(path) && path != added {
        let i = more.index_of(path);
        assert(all[i] == path);
    }
}

proof fn entries_are_decided(
    ground: Ground,
    listing: ListingModel,
    names: Seq<Seq<char>>,
    node_modules: Seq<char>,
    path: Seq<char>,
)
    requires
        forall|name: Seq<char>| #[trigger] listing.scopes.contains_key(name)
            ==> listing.scopes[name].dom().finite(),
        forall|name: Seq<char>| #[trigger] names.contains(name) ==> listing.entries.contains_key(
            name,
        ),
    ensures
        converged(ground, listing, names, node_modules).remove.contains(path) <==> {
            ||| exists|name: Seq<char>| #[trigger]
                is_plain_debris(ground, listing, node_modules, name) && names.contains(name)
                    && path == put_after(node_modules, name)
            ||| exists|scope: Seq<char>, child: Seq<char>| #[trigger]
                is_scoped_debris(ground, listing, node_modules, scope, child) && names.contains(
                    scope,
                ) && path == put_after(put_after(node_modules, scope), child)
        },
    decreases names.len(),
{
    if names.len() > 0 {
        let shorter = names.drop_last();
        let last = names.last();
        assert(names.contains(last));
        assert forall|name: Seq<char>| #[trigger] names.contains(name) <==> shorter.contains(name)
            || name == last by {
            if names.contains(name) {
                let i = names.index_of(name);
                if i < shorter.len() {
                    assert(shorter[i] == name);
                }
            }
            if shorter.contains(name) {
                let i = shorter.index_of(name);
                assert(names[i] == name);
            }
        }
        assert forall|name: Seq<char>| #[trigger] shorter.contains(
            name,
        ) implies listing.entries.contains_key(name) by {
            assert(names.contains(name));
        }
        entries_are_decided(ground, listing, shorter, node_modules, path);
        let before = converged(ground, listing, shorter, node_modules);
        let after = converged(ground, listing, names, node_modules);
        let at = put_after(node_modules, last);
        if last == VIRTUAL_STORE_DIR@ {
        } else if is_scope(listing, last) {
            let children = scope_in(listing, last);
            let inside = in_order::<String>(children.dom());
            in_order_lists::<String>(children.dom());
            scopes_are_decided(ground, last, children, inside, at, before, path);
            assert forall|child: Seq<char>| #[trigger] inside.contains(child)
                <==> children.contains_key(child) by {
                assert(inside.to_set().contains(child) <==> children.dom().contains(child));
            }
            if exists|child: Seq<char>| #[trigger]
                inside.contains(child) && is_debris(
                    ground,
                    last + "/"@ + child,
                    children[child],
                    at,
                ) && path == put_after(at, child) {
                let child = choose|child: Seq<char>| #[trigger]
                    inside.contains(child) && is_debris(
                        ground,
                        last + "/"@ + child,
                        children[child],
                        at,
                    ) && path == put_after(at, child);
                assert(is_scoped_debris(ground, listing, node_modules, last, child));
            }
        } else {
            pushed_contains(before.remove, at, path);
            if is_debris(ground, last, listing.entries[last], node_modules) {
                assert(is_plain_debris(ground, listing, node_modules, last));
            }
        }
    }
}

/// Clearing a project removes exactly what is not expected there and provably
/// jerky's. Nothing that another tool or a person put there is ever removed,
/// and nothing of jerky's is left behind.
pub proof fn exactly_own_debris_is_removed(
    ground: Ground,
    listing: ListingModel,
    node_modules: Seq<char>,
    path: Seq<char>,
)
    requires
        listing.entries.dom().finite(),
        forall|name: Seq<char>| #[trigger] listing.scopes.contains_key(name)
            ==> listing.scopes[name].dom().finite(),
    ensures
        converged(
            ground,
            listing,
            in_order::<String>(listing.entries.dom()),
            node_modules,
        ).remove.contains(path) <==> is_own_debris(ground, listing, node_modules, path),
{
    let names = in_order::<String>(listing.entries.dom());
    in_order_lists::<String>(listing.entries.dom());
    assert forall|name: Seq<char>| #[trigger] names.contains(name)
        <==> listing.entries.contains_key(name) by {
        assert(names.to_set().contains(name) <==> listing.entries.dom().contains(name));
    }
    entries_are_decided(ground, listing, names, node_modules, path);
}

proof fn joining_what_was_joined(head: Seq<Seq<char>>, tail: Seq<Seq<char>>)
    requires
        tail.len() > 0,
    ensures
        joined(head.push(joined(tail, '/')), '/') == joined(head + tail, '/'),
    decreases tail.len(),
{
    let inner = joined(tail, '/');
    let outer = head.push(inner);
    assert(outer.drop_last() =~= head);
    if tail.len() == 1 {
        assert(head + tail =~= head.push(tail[0]));
    } else {
        let shorter = tail.drop_last();
        joining_what_was_joined(head, shorter);
        assert((head + tail).drop_last() =~= head + shorter);
        let before = head.push(joined(shorter, '/'));
        assert(before.drop_last() =~= head);
        if head.len() == 0 {
            assert(outer =~= seq![inner]);
            assert(before =~= seq![joined(shorter, '/')]);
        } else {
            assert(joined(outer, '/') =~= joined(head, '/').push('/') + inner);
            assert(joined(before, '/') =~= joined(head, '/').push('/') + joined(shorter, '/'));
            assert(inner =~= joined(shorter, '/').push('/') + tail.last());
            assert(joined(outer, '/') =~= joined(before, '/').push('/') + tail.last());
        }
    }
}

proof fn net_of_sum(a: Seq<Step>, b: Seq<Step>)
    ensures
        net(a + b) == net(a) + net(b),
    decreases b.len(),
{
    if b.len() == 0 {
        assert(a + b =~= a);
    } else {
        assert((a + b).drop_last() =~= a + b.drop_last());
        net_of_sum(a, b.drop_last());
    }
}

proof fn net_of_climbs(n: nat)
    ensures
        net(Seq::new(n, |i: int| Step::Parent)) == -n,
    decreases n,
{
    let climbs = Seq::new(n, |i: int| Step::Parent);
    if n > 0 {
        assert(climbs.drop_last() =~= Seq::new((n - 1) as nat, |i: int| Step::Parent));
        net_of_climbs((n - 1) as nat);
    }
}

proof fn net_of_names(down: Seq<Step>)
    requires
        forall|i: int| 0 <= i < down.len() ==> #[trigger] down[i] is Normal,
    ensures
        net(down) == down.len(),
    decreases down.len(),
{
    if down.len() > 0 {
        assert forall|i: int| 0 <= i < down.drop_last().len() implies #[trigger] down.drop_last()[i]
            is Normal by {
            assert(down.drop_last()[i] == down[i]);
        }
        net_of_names(down.drop_last());
        assert(down[down.len() - 1] is Normal);
    }
}

/// The names that lead down from the root of a workspace to a project.
pub open spec fn names_down_to(importer: Seq<char>) -> Seq<Seq<char>> {
    if importer == root_path() {
        seq![]
    } else {
        plain_names(steps(importer))
    }
}

/// Where one project of a workspace is seen from another never leads out of
/// the workspace on the way: what is recorded of a local dependency is never
/// refused when it is read back.
pub proof fn local_paths_stay_inside(importer: Seq<char>, member: Seq<char>)
    requires
        is_importer(importer),
        is_importer(member),
    ensures
        stays_inside(depth_of(importer), path_between(importer, member)),
        steps(path_between(importer, member)) == if importer == root_path() && member
            == root_path() {
            seq![Step::Current]
        } else {
            Seq::new(depth_of(importer), |i: int| Step::Parent) + plainly(names_down_to(member))
        },
{
    let depth = depth_of(importer);
    let path = path_between(importer, member);
    let ups = Seq::new(depth, |i: int| Step::Parent);
    let names = names_down_to(member);
    let down = plainly(names);
    let way = ups + down;
    plain_steps(member);
    assert forall|i: int| 0 <= i < way.len() implies is_travel(#[trigger] way[i]) by {
        if i >= depth {
            assert(way[i] == down[i - depth]);
            assert(is_plain(names[i - depth]));
        }
    }
    way_reads_back(way);
    let texts = way.map_values(|step: Step| step_text(step));
    assert(texts =~= climbs(depth) + names);
    if way.len() == 0 {
        assert(path == root_path());
        assert(!path.contains('/'));
        pieces_of_joined(seq![path], '/');
        assert(joined(seq![path], '/') == path);
        assert(pieces(path, '/') =~= seq![path]);
        assert(pieces(path, '/').drop_last() =~= seq![]);
        assert(steps_of(pieces(path, '/').drop_last()) =~= seq![]);
        assert(steps_of(pieces(path, '/')) =~= seq![]);
        assert(steps(path) =~= seq![Step::Current]);
        assert forall|i: int| 0 <= i <= steps(path).len() implies depth + #[trigger] net(
            steps(path).take(i),
        ) >= 0 by {
            if i == 0 {
                assert(steps(path).take(0) =~= seq![]);
            } else {
                assert(steps(path).take(1).drop_last() =~= seq![]);
                assert(net(steps(path).take(1).drop_last()) == 0);
                assert(steps(path).take(1).last() is Current);
            }
        }
    } else {
        if member == root_path() {
            assert(climbs(depth) + Seq::<Seq<char>>::empty() =~= climbs(depth));
            assert(texts =~= climbs(depth));
        } else {
            assert(climbs(depth) + seq![member] =~= climbs(depth).push(member));
            assert(member == joined(names, '/'));
            joining_what_was_joined(climbs(depth), names);
        }
        assert(path == joined(texts, '/'));
        assert forall|i: int| 0 <= i < texts.len() implies !(#[trigger] texts[i]).contains('/') by {
            assert(is_travel(way[i]));
        }
        pieces_of_joined(texts, '/');
        assert(is_travel(way[0]));
        assert(texts[0] != seq!['.']);
        assert(steps(path) =~= way);
        assert forall|i: int| 0 <= i <= way.len() implies depth + #[trigger] net(way.take(i))
            >= 0 by {
            if i <= depth {
                assert(way.take(i) =~= Seq::new(i as nat, |k: int| Step::Parent));
                net_of_climbs(i as nat);
            } else {
                let part = down.take(i - depth);
                assert(way.take(i) =~= ups + part);
                net_of_sum(ups, part);
                net_of_climbs(depth);
                assert forall|k: int| 0 <= k < part.len() implies #[trigger] part[k] is Normal by {
                    assert(part[k] == down[k]);
                }
                net_of_names(part);
            }
        }
    }
}

/// Where one project of a workspace is seen from another is where it is: the
/// way from the one, wherever the workspace lies, ends at the other.
pub proof fn local_paths_arrive(root: Seq<Step>, importer: Seq<char>, member: Seq<char>)
    requires
        is_rooted(root),
        is_importer(importer),
        is_importer(member),
    ensures
        resolved(
            root + plainly(names_down_to(importer)) + steps(path_between(importer, member)),
        ) == root + plainly(names_down_to(member)),
{
    local_paths_stay_inside(importer, member);
    let here = root + plainly(names_down_to(importer));
    let down = plainly(names_down_to(member));
    let depth = depth_of(importer);
    let ups = Seq::new(depth, |i: int| Step::Parent);
    assert forall|i: int| 1 <= i < here.len() implies #[trigger] here[i] is Normal by {
        if i < root.len() {
            assert(root[i] is Normal);
        }
    }
    assert(is_rooted(here));
    if importer == root_path() && member == root_path() {
        let whole = here + seq![Step::Current];
        assert(whole.drop_last() =~= here);
        rooted_is_resolved(here);
        assert(here =~= root + down);
    } else {
        assert(here + (ups + down) =~= here + ups + down);
        climbing(here, depth);
        descending(here + ups, down);
        assert(here.take(here.len() - depth) =~= root);
    }
}

/// A tree is recreated whole: its top, then everything that is listed in it, in
/// order, each in the same place below the new top. Directories are made, and
/// files are linked or copied, as the tree is.
pub proof fn trees_are_recreated_whole(
    src: &str,
    dst: &str,
    listing: &Vec<TreeEntry>,
    linked: Vec<TreeOp>,
    copied: Vec<TreeOp>,
    i: int,
)
    requires
        call_ensures(hard_link_tree, (src, dst, listing), linked),
        call_ensures(copy_tree, (src, dst, listing), copied),
        0 <= i < listing@.len(),
    ensures
        ({
            let entry = listing@[i];
            let from = put_after(src@, entry.relative@);
            let to = put_after(dst@, entry.relative@);
            &&& linked.deep_view().len() == listing@.len() + 1
            &&& copied.deep_view().len() == listing@.len() + 1
            &&& linked.deep_view()[0] == (TreeOpModel {
                from: src@,
                to: dst@,
                how: Recreate::Directory,
            })
            &&& copied.deep_view()[0] == linked.deep_view()[0]
            &&& linked.deep_view()[i + 1] == (TreeOpModel {
                from,
                to,
                how: if entry.is_dir {
                    Recreate::Directory
                } else {
                    Recreate::Link
                },
            })
            &&& copied.deep_view()[i + 1] == (TreeOpModel {
                from,
                to,
                how: if entry.is_dir {
                    Recreate::Directory
                } else {
                    Recreate::Copy
                },
            })
        }),
{
}

/// A link takes the place of nothing or of a link, and of nothing else: what is
/// there and is no link is a conflict.
pub proof fn only_links_are_replaced(
    path: &str,
    found: &Option<Found>,
    placing: Result<Placing, LinkError>,
)
    requires
        call_ensures(place_symlink, (path, found), placing),
    ensures
        placing is Ok <==> found is None || (found->0).deep_view() is Link,
        placing is Ok ==> (placing->Ok_0 is Create <==> found is None),
{
}

/// How far down a way leads is counted step by step: a plain name leads one
/// down, a step up one up, and anything else nowhere.
pub proof fn ways_are_counted_step_by_step(a: Seq<Step>, b: Seq<Step>, name: Seq<char>)
    ensures
        net(a + b) == net(a) + net(b),
        net(seq![Step::Normal(name)]) == 1,
        net(seq![Step::Parent]) == -1,
        net(seq![Step::Current]) == 0,
        net(seq![Step::Root]) == 0,
{
    net_of_sum(a, b);
    reveal_with_fuel(net, 2);
    assert(seq![Step::Normal(name)].drop_last() =~= seq![]);
    assert(seq![Step::Parent].drop_last() =~= seq![]);
    assert(seq![Step::Current].drop_last() =~= seq![]);
    assert(seq![Step::Root].drop_last() =~= seq![]);
}

/// A project is as deep in its workspace as names lead to it, and the root is
/// not deep at all.
pub proof fn depths_are_counted_by_names(names: Seq<Seq<char>>)
    requires
        names.len() > 0,
        forall|i: int| 0 <= i < names.len() ==> is_plain(#[trigger] names[i]),
    ensures
        depth_of(spelled(names)) == names.len(),
        depth_of(seq!['.']) == 0,
        is_importer(spelled(names)),
        names_down_to(spelled(names)) == names,
{
    steps_of_spelled(names);
    plain_names_of_plainly(names);
    let dot = seq!['.'];
    if spelled(names) == dot {
        assert(steps(dot)[0] == plainly(names)[0]);
        assert(!dot.contains('/'));
        pieces_of_joined(seq![dot], '/');
        assert(joined(seq![dot], '/') == dot);
        assert(pieces(dot, '/') == seq![dot]);
        assert(steps(dot)[0] is Current);
    }
}

} // verus!
