//! Copies are named alike whatever they are known by: by the environment they
//! were found in, or by the key they were recorded under.

use vstd::prelude::*;
use crate::copies::Copies;
use crate::instance::{Instance, InstanceModel};
use crate::naming::{
    all_identified, cut_name_of, cut_names_of, identified, CopiesOf, Names, NamesOf, Node,
};
use crate::sorted::{in_order, in_order_lists};

verus! {

/// Copies under other handles.
pub open spec fn moved(
    targets: Map<Seq<char>, InstanceModel>,
    key_of: spec_fn(InstanceModel) -> Seq<char>,
) -> Map<Seq<char>, Seq<char>> {
    targets.map_values(key_of)
}

/// Are some copies recorded under keys, each under its own, with what it
/// resolved to under theirs, and nothing else?
pub open spec fn is_mirrored(
    copies: Copies,
    known: Set<InstanceModel>,
    keyed: CopiesOf<Seq<char>>,
    key_of: spec_fn(InstanceModel) -> Seq<char>,
) -> bool {
    &&& copies.dom().finite()
    &&& keyed.dom().finite()
    &&& known.subset_of(copies.dom())
    &&& forall|x: InstanceModel| #[trigger]
        known.contains(x) ==> {
            &&& keyed.contains_key(key_of(x))
            &&& keyed[key_of(x)].own == moved(copies[x].own, key_of)
            &&& keyed[key_of(x)].dependencies == moved(copies[x].dependencies, key_of)
            &&& String::package_of(key_of(x)) == x.package
            &&& copies[x].own.dom().finite()
            &&& copies[x].dependencies.dom().finite()
        }
    &&& forall|x: InstanceModel, y: InstanceModel| #[trigger]
        known.contains(x) && #[trigger] known.contains(y) && key_of(x) == key_of(y) ==> x == y
    &&& forall|x: InstanceModel, name: Seq<char>|
        known.contains(x) && #[trigger] copies[x].own.contains_key(name) ==> known.contains(
            copies[x].own[name],
        )
    &&& forall|x: InstanceModel, name: Seq<char>|
        known.contains(x) && #[trigger] copies[x].dependencies.contains_key(name)
            ==> known.contains(copies[x].dependencies[name])
}

/// Were the same names given?
pub open spec fn named_alike(
    known: Set<InstanceModel>,
    names: Names,
    keyed: NamesOf<Seq<char>>,
    key_of: spec_fn(InstanceModel) -> Seq<char>,
) -> bool {
    forall|x: InstanceModel| #[trigger]
        known.contains(x) ==> keyed.contains_key(key_of(x)) == names.contains_key(x) && (
        names.contains_key(x) ==> keyed[key_of(x)] == names[x])
}

/// Are the same copies free to be named?
pub open spec fn open_alike(
    known: Set<InstanceModel>,
    open: Set<InstanceModel>,
    keyed: Set<Seq<char>>,
    key_of: spec_fn(InstanceModel) -> Seq<char>,
) -> bool {
    &&& open.finite()
    &&& keyed.finite()
    &&& forall|x: InstanceModel| #[trigger]
        known.contains(x) ==> keyed.contains(key_of(x)) == open.contains(x)
}

proof fn fewer_alike(
    copies: Copies,
    known: Set<InstanceModel>,
    keyed: CopiesOf<Seq<char>>,
    key_of: spec_fn(InstanceModel) -> Seq<char>,
    open: Set<InstanceModel>,
    keyed_open: Set<Seq<char>>,
    x: InstanceModel,
)
    requires
        is_mirrored(copies, known, keyed, key_of),
        open_alike(known, open, keyed_open, key_of),
        known.contains(x),
    ensures
        open_alike(known, open.remove(x), keyed_open.remove(key_of(x)), key_of),
{
}

proof fn cut_alike(
    copies: Copies,
    known: Set<InstanceModel>,
    keyed: CopiesOf<Seq<char>>,
    key_of: spec_fn(InstanceModel) -> Seq<char>,
    names: Names,
    keyed_names: NamesOf<Seq<char>>,
    x: InstanceModel,
    open: Set<InstanceModel>,
    keyed_open: Set<Seq<char>>,
)
    requires
        is_mirrored(copies, known, keyed, key_of),
        named_alike(known, names, keyed_names, key_of),
        open_alike(known, open, keyed_open, key_of),
        known.contains(x),
    ensures
        cut_name_of::<Instance>(copies, names, x, open) == cut_name_of::<String>(
            keyed,
            keyed_names,
            key_of(x),
            keyed_open,
        ),
    decreases open.len(),
{
    if !names.contains_key(x) && open.contains(x) {
        let rest = open.remove(x);
        let keyed_rest = keyed_open.remove(key_of(x));
        fewer_alike(copies, known, keyed, key_of, open, keyed_open, x);
        let own = copies[x].own;
        let dependencies = copies[x].dependencies;
        assert(cut_names_of::<Instance>(copies, names, own, rest) =~= cut_names_of::<String>(
            keyed,
            keyed_names,
            moved(own, key_of),
            keyed_rest,
        )) by {
            assert forall|name: Seq<char>| #[trigger] own.contains_key(name) implies cut_name_of::<
                Instance,
            >(copies, names, own[name], rest) == cut_name_of::<String>(
                keyed,
                keyed_names,
                key_of(own[name]),
                keyed_rest,
            ) by {
                cut_alike(
                    copies,
                    known,
                    keyed,
                    key_of,
                    names,
                    keyed_names,
                    own[name],
                    rest,
                    keyed_rest,
                );
            }
        }
        assert(cut_names_of::<Instance>(copies, names, dependencies, rest) =~= cut_names_of::<
            String,
        >(keyed, keyed_names, moved(dependencies, key_of), keyed_rest)) by {
            assert forall|name: Seq<char>| #[trigger] dependencies.contains_key(
                name,
            ) implies cut_name_of::<Instance>(copies, names, dependencies[name], rest)
                == cut_name_of::<String>(
                keyed,
                keyed_names,
                key_of(dependencies[name]),
                keyed_rest,
            ) by {
                cut_alike(
                    copies,
                    known,
                    keyed,
                    key_of,
                    names,
                    keyed_names,
                    dependencies[name],
                    rest,
                    keyed_rest,
                );
            }
        }
    }
}

/// Naming one copy comes to the same.
pub proof fn identified_alike(
    copies: Copies,
    known: Set<InstanceModel>,
    keyed: CopiesOf<Seq<char>>,
    key_of: spec_fn(InstanceModel) -> Seq<char>,
    names: Names,
    keyed_names: NamesOf<Seq<char>>,
    x: InstanceModel,
    open: Set<InstanceModel>,
    keyed_open: Set<Seq<char>>,
)
    requires
        is_mirrored(copies, known, keyed, key_of),
        open_alike(known, copies.dom(), keyed.dom(), key_of),
        named_alike(known, names, keyed_names, key_of),
        open_alike(known, open, keyed_open, key_of),
        known.contains(x),
    ensures
        identified::<Instance>(copies, x, names, open).0 == identified::<String>(
            keyed,
            key_of(x),
            keyed_names,
            keyed_open,
        ).0,
        named_alike(
            known,
            identified::<Instance>(copies, x, names, open).1,
            identified::<String>(keyed, key_of(x), keyed_names, keyed_open).1,
            key_of,
        ),
    decreases open.len(), 0nat,
{
    if !names.contains_key(x) && open.contains(x) {
        let rest = open.remove(x);
        let keyed_rest = keyed_open.remove(key_of(x));
        fewer_alike(copies, known, keyed, key_of, open, keyed_open, x);
        let copy = copies[x];
        let own_keys = in_order::<String>(copy.own.dom());
        let dep_keys = in_order::<String>(copy.dependencies.dom());
        in_order_lists::<String>(copy.own.dom());
        in_order_lists::<String>(copy.dependencies.dom());
        assert(moved(copy.own, key_of).dom() =~= copy.own.dom());
        assert(moved(copy.dependencies, key_of).dom() =~= copy.dependencies.dom());
        assert forall|i: int| 0 <= i < own_keys.len() implies copy.own.contains_key(
            #[trigger] own_keys[i],
        ) && known.contains(copy.own[own_keys[i]]) by {
            assert(own_keys.to_set().contains(own_keys[i]));
            assert(copy.own.contains_key(own_keys[i]));
        }
        assert forall|i: int| 0 <= i < dep_keys.len() implies copy.dependencies.contains_key(
            #[trigger] dep_keys[i],
        ) && known.contains(copy.dependencies[dep_keys[i]]) by {
            assert(dep_keys.to_set().contains(dep_keys[i]));
            assert(copy.dependencies.contains_key(dep_keys[i]));
        }
        all_identified_alike(
            copies,
            known,
            keyed,
            key_of,
            names,
            keyed_names,
            own_keys,
            copy.own,
            true,
            rest,
            keyed_rest,
        );
        let (own, middle) = all_identified::<Instance>(
            copies,
            own_keys,
            copy.own,
            true,
            names,
            rest,
        );
        let keyed_middle = all_identified::<String>(
            keyed,
            own_keys,
            moved(copy.own, key_of),
            true,
            keyed_names,
            keyed_rest,
        ).1;
        all_identified_alike(
            copies,
            known,
            keyed,
            key_of,
            middle,
            keyed_middle,
            dep_keys,
            copy.dependencies,
            false,
            rest,
            keyed_rest,
        );
        let after = identified::<Instance>(copies, x, names, open).1;
        let keyed_after = identified::<String>(keyed, key_of(x), keyed_names, keyed_open).1;
        assert forall|y: InstanceModel| #[trigger] known.contains(y) implies
            keyed_after.contains_key(key_of(y)) == after.contains_key(y) && (after.contains_key(y)
            ==> keyed_after[key_of(y)] == after[y]) by {
            if y == x {
            } else {
                assert(key_of(y) != key_of(x));
            }
        }
    }
}

/// Naming some copies in order comes to the same.
pub proof fn all_identified_alike(
    copies: Copies,
    known: Set<InstanceModel>,
    keyed: CopiesOf<Seq<char>>,
    key_of: spec_fn(InstanceModel) -> Seq<char>,
    names: Names,
    keyed_names: NamesOf<Seq<char>>,
    keys: Seq<Seq<char>>,
    targets: Map<Seq<char>, InstanceModel>,
    cut: bool,
    open: Set<InstanceModel>,
    keyed_open: Set<Seq<char>>,
)
    requires
        is_mirrored(copies, known, keyed, key_of),
        open_alike(known, copies.dom(), keyed.dom(), key_of),
        named_alike(known, names, keyed_names, key_of),
        open_alike(known, open, keyed_open, key_of),
        forall|i: int|
            0 <= i < keys.len() ==> targets.contains_key(#[trigger] keys[i]) && known.contains(
                targets[keys[i]],
            ),
    ensures
        all_identified::<Instance>(copies, keys, targets, cut, names, open).0 == all_identified::<
            String,
        >(keyed, keys, moved(targets, key_of), cut, keyed_names, keyed_open).0,
        named_alike(
            known,
            all_identified::<Instance>(copies, keys, targets, cut, names, open).1,
            all_identified::<String>(
                keyed,
                keys,
                moved(targets, key_of),
                cut,
                keyed_names,
                keyed_open,
            ).1,
            key_of,
        ),
    decreases open.len(), keys.len(),
{
    if keys.len() > 0 {
        let rest = keys.drop_last();
        assert forall|i: int| 0 <= i < rest.len() implies targets.contains_key(#[trigger] rest[i])
            && known.contains(targets[rest[i]]) by {
            assert(rest[i] == keys[i]);
        }
        all_identified_alike(
            copies,
            known,
            keyed,
            key_of,
            names,
            keyed_names,
            rest,
            targets,
            cut,
            open,
            keyed_open,
        );
        let middle = all_identified::<Instance>(copies, rest, targets, cut, names, open).1;
        let keyed_middle = all_identified::<String>(
            keyed,
            rest,
            moved(targets, key_of),
            cut,
            keyed_names,
            keyed_open,
        ).1;
        let last = keys[keys.len() - 1];
        assert(targets.contains_key(last));
        let x = targets[last];
        assert(known.contains(x));
        assert(moved(targets, key_of)[last] == key_of(x));
        identified_alike(
            copies,
            known,
            keyed,
            key_of,
            middle,
            keyed_middle,
            x,
            open,
            keyed_open,
        );
        let after = identified::<Instance>(copies, x, middle, open).1;
        let keyed_after = identified::<String>(keyed, key_of(x), keyed_middle, keyed_open).1;
        cut_alike(
            copies,
            known,
            keyed,
            key_of,
            after,
            keyed_after,
            x,
            copies.dom(),
            keyed.dom(),
        );
    }
}

} // verus!
