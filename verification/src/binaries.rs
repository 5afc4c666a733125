//! The command-line entry points a package publishes.

use vstd::prelude::*;
use vstd::string::*;
use crate::order::Duplicate;
use crate::path::{
    descend, descended, is_plain, plain_names, plain_steps, spelled, steps, steps_of_spelled,
};
use crate::sorted::{in_order, SortedMap};
use crate::text::{cut_last, same, split_first, split_last};
use crate::json::{Json, Members, Value};

verus! {

/// The name each entry point takes in a `.bin` directory, and the file inside
/// the package that it points at.
pub type Bins = SortedMap<String, String>;

/// What a package's `bin` field holds.
#[derive(Debug)]
pub enum Declared {
    /// One file, named after the package.
    One(String),
    /// Files by the name each is to have.
    Many(SortedMap<String, String>),
}

/// What a [`Declared`] means.
pub enum DeclaredBins {
    One(Seq<char>),
    Many(Map<Seq<char>, Seq<char>>),
}

impl DeepView for Declared {
    type V = DeclaredBins;

    open spec fn deep_view(&self) -> DeclaredBins {
        match self {
            Declared::One(target) => DeclaredBins::One(target@),
            Declared::Many(declared) => DeclaredBins::Many(declared.deep_view()),
        }
    }
}

impl Duplicate for Declared {
    fn duplicate(&self) -> (copy: Self) {
        match self {
            Declared::One(target) => Declared::One(target.clone()),
            Declared::Many(declared) => Declared::Many(declared.duplicate()),
        }
    }
}

/// A package name without its scope.
pub open spec fn unscoped_name(name: Seq<char>) -> Seq<char> {
    match cut_last(name, '/') {
        Some((_, last)) => last,
        None => name,
    }
}

/// A name, if it is one plain step of a path: the only shape that a shim's
/// filename may have.
pub open spec fn only_component(name: Seq<char>) -> Option<Seq<char>> {
    if is_plain(name) {
        Some(name)
    } else {
        None
    }
}

/// The cleaned form of a target that stays inside its package, if it does and
/// names anything.
pub open spec fn contained_path(target: Seq<char>) -> Option<Seq<char>> {
    match descended(target) {
        Some(path) => if path.len() > 0 {
            Some(path)
        } else {
            None
        },
        None => None,
    }
}

/// Is this declaration one that can be linked safely?
pub open spec fn acceptable(name: Seq<char>, target: Seq<char>) -> bool {
    only_component(name) is Some && contained_path(target) is Some
}

/// What the first so many of a run of declarations come to.
pub open spec fn accepted_of(
    names: Seq<Seq<char>>,
    declared: Map<Seq<char>, Seq<char>>,
) -> Map<Seq<char>, Seq<char>>
    decreases names.len(),
{
    if names.len() == 0 {
        Map::empty()
    } else {
        let before = accepted_of(names.drop_last(), declared);
        let name = names.last();
        if acceptable(name, declared[name]) {
            before.insert(only_component(name)->0, contained_path(declared[name])->0)
        } else {
            before
        }
    }
}

/// The entry points a package of some name ends up with.
pub open spec fn bins_of(declared: DeclaredBins, package: Seq<char>) -> Map<Seq<char>, Seq<char>> {
    match declared {
        DeclaredBins::One(target) => {
            let name = unscoped_name(package);
            if acceptable(name, target) {
                Map::empty().insert(only_component(name)->0, contained_path(target)->0)
            } else {
                Map::empty()
            }
        },
        DeclaredBins::Many(map) => accepted_of(in_order::<String>(map.dom()), map),
    }
}

impl Declared {
    /// The entry points this declaration gives a package of this name. A name
    /// that is not one path component, and a target that leaves the package
    /// or names nothing, are dropped on their own.
    pub fn named_for(&self, pkg_name: &str) -> (bins: Bins)
        ensures
            bins.deep_view() == bins_of(self.deep_view(), pkg_name@),
    {
        let mut bins: Bins = SortedMap::new();
        match self {
            Declared::One(target) => {
                if let Some((name, path)) = accept(unscoped(pkg_name), target.as_str()) {
                    bins.insert(name, path);
                }
            },
            Declared::Many(declared) => {
                let n: usize = declared.len();
                let ghost names = declared.keys();
                let ghost map = declared.deep_view();
                let mut i: usize = 0;
                while i < n
                    invariant
                        i <= n == names.len(),
                        names == declared.keys(),
                        map == declared.deep_view(),
                        bins.deep_view() == accepted_of(names.take(i as int), map),
                    decreases n - i,
                {
                    assert(names.take(i + 1).drop_last() =~= names.take(i as int));
                    if let Some((name, path)) = accept(
                        declared.key_at(i).as_str(),
                        declared.value_at(i).as_str(),
                    ) {
                        bins.insert(name, path);
                    }
                    i = i + 1;
                }
                assert(names.take(n as int) =~= names);
            },
        }
        bins
    }
}

/// A package name without its scope.
pub fn unscoped<'a>(pkg_name: &'a str) -> (name: &'a str)
    ensures
        name@ == unscoped_name(pkg_name@),
{
    match split_last(pkg_name, '/') {
        Some((_, last)) => last,
        None => pkg_name,
    }
}

fn accept(name: &str, target: &str) -> (accepted: Option<(String, String)>)
    ensures
        match accepted {
            Some((name_, path)) => only_component(name@) == Some(name_@) && contained_path(target@)
                == Some(path@),
            None => !acceptable(name@, target@),
        },
{
    let name = match single_component(name) {
        Some(name) => name,
        None => {
            return None;
        },
    };
    match contained(target) {
        Some(path) => Some((name, path)),
        None => None,
    }
}

/// The name, if it is exactly one plain path component: not empty, neither `.`
/// nor `..`, and without a separator anywhere in it.
pub fn single_component(name: &str) -> (only: Option<String>)
    ensures
        match only {
            Some(only) => only_component(name@) == Some(only@),
            None => only_component(name@) is None,
        },
{
    proof {
        reveal_strlit(".");
        reveal_strlit("..");
        assert("."@ =~= seq!['.']);
        assert(".."@ =~= seq!['.', '.']);
    }
    if name.is_empty() || split_first(name, '/').is_some() || same(name, ".") || same(name, "..") {
        None
    } else {
        Some(name.to_owned())
    }
}

/// A target inside its package, cleaned of everything but plain names.
pub fn contained(target: &str) -> (cleaned: Option<String>)
    ensures
        match cleaned {
            Some(cleaned) => contained_path(target@) == Some(cleaned@),
            None => contained_path(target@) is None,
        },
{
    match descend(target) {
        Some(cleaned) => if cleaned.as_str().is_empty() {
            None
        } else {
            Some(cleaned)
        },
        None => None,
    }
}

/// An entry point's name is one plain path component, and its target goes
/// down from the package by plain names alone, whatever was published.
pub proof fn bins_stay_inside(name: Seq<char>, target: Seq<char>)
    requires
        acceptable(name, target),
    ensures
        is_plain(only_component(name)->0),
        forall|i: int|
            0 <= i < steps(contained_path(target)->0).len() ==> #[trigger] steps(
                contained_path(target)->0,
            )[i] is Normal,
{
    plain_steps(target);
    let names = plain_names(steps(target));
    if names.len() == 0 {
        assert(spelled(names) =~= seq![]);
    }
    steps_of_spelled(names);
}

/// Files by name, if that is what some members of an object are.
pub open spec fn files_among(members: Members) -> Option<Map<Seq<char>, Seq<char>>>
    decreases members.len(),
{
    if members.len() == 0 {
        Some(Map::empty())
    } else {
        match (files_among(members.drop_last()), members.last().1) {
            (Some(before), Json::Text(target)) => Some(before.insert(members.last().0, target)),
            _ => None,
        }
    }
}

/// The entry points that a `bin` field declares, or nothing if it has none of
/// the shapes that it may have.
pub open spec fn bin_reading(value: Json) -> Option<DeclaredBins> {
    match value {
        Json::Text(target) => Some(DeclaredBins::One(target)),
        Json::Object(members) => match files_among(members) {
            Some(files) => Some(DeclaredBins::Many(files)),
            None => None,
        },
        _ => None,
    }
}

proof fn strays_stay(members: Members, n: int)
    requires
        0 <= n <= members.len(),
        files_among(members.take(n)) is None,
    ensures
        files_among(members) is None,
    decreases members.len() - n,
{
    if n < members.len() {
        assert(members.take(n + 1).drop_last() =~= members.take(n));
        strays_stay(members, n + 1);
    } else {
        assert(members.take(n) =~= members);
    }
}

/// Read a `bin` field. One of no known shape declares nothing: an odd entry in
/// one version must not make every version of a package unreadable.
pub fn deserialize_lenient(value: &Value) -> (declared: Option<Declared>)
    ensures
        declared.deep_view() == bin_reading(value.deep_view()),
{
    match value {
        Value::Text(target) => Some(Declared::One(target.clone())),
        Value::Object(object) => {
            let ghost all = object.model();
            let mut files: SortedMap<String, String> = SortedMap::new();
            let n: usize = object.len();
            let mut i: usize = 0;
            while i < n
                invariant
                    i <= n == all.len(),
                    all == object.model(),
                    value.deep_view() == Json::Object(all),
                    files_among(all.take(i as int)) == Some(files.deep_view()),
                decreases n - i,
            {
                assert(all.take(i + 1).drop_last() =~= all.take(i as int));
                assert(all.take(i + 1).last() == all[i as int]);
                match object.value_at(i) {
                    Value::Text(target) => {
                        files.insert(object.name_at(i).clone(), target.clone());
                    },
                    _ => {
                        proof {
                            strays_stay(all, i + 1);
                        }
                        return None;
                    },
                }
                i = i + 1;
            }
            assert(all.take(n as int) =~= all);
            Some(Declared::Many(files))
        },
        _ => None,
    }
}

} // verus!
