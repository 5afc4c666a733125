//! How what people write is read: names, versions and ranges on the command
//! line and in manifests.

use vstd::prelude::*;
use crate::cli::{parse_package_spec, spec_reading, CliFault, PackageSpec, SpecModel, VersionAsked};
use crate::graph::{DeclaredModel, Kind};
use crate::json::{distinct, is_at, one_place, Json, Members};
use crate::manifest::{declared_in, patterns_in, texts_among};
use crate::specifier::{
    asked_reading, is_letter, is_scheme_char, plausible, AskedModel, ResolveFault, ALIAS_PROTOCOL,
};
use crate::text::{cut_first_at, cut_last_at, is_first, is_last, opens_with};

verus! {

/// A name without a scope can be a package's if it is anything at all, and one
/// with a scope if both the scope and what follows it are.
pub proof fn scopes_need_a_name(scope: Seq<char>, name: Seq<char>)
    requires
        !scope.contains('/'),
    ensures
        plausible(seq!['@'] + scope + seq!['/'] + name) <==> scope.len() > 0 && name.len() > 0,
        !plausible(seq!['@'] + scope),
        !plausible(seq![]),
        name.len() > 0 && name[0] != '@' ==> plausible(name),
{
    let full = seq!['@'] + scope + seq!['/'] + name;
    let rest = full.skip(1);
    assert(rest =~= scope + seq!['/'] + name);
    let n = scope.len() as int;
    assert(is_first(rest, '/', n)) by {
        assert(rest[n] == '/');
        assert forall|j: int| 0 <= j < n implies rest[j] != '/' by {
            assert(rest[j] == scope[j]);
            assert(scope.contains(scope[j]));
        }
    }
    cut_first_at(rest, '/', n);
    assert(rest.take(n) =~= scope);
    assert(rest.skip(n + 1) =~= name);
    assert((seq!['@'] + scope).skip(1) =~= scope);
}

/// A name and a version with an `@` between them ask for that version, a name
/// with nothing behind the `@` is refused, and so is nothing at all. A scope's
/// `@` is not taken for the one before the version.
pub proof fn versions_follow_the_name(name: Seq<char>, version: Seq<char>)
    requires
        plausible(name),
        !name.skip(1).contains('@'),
    ensures
        version.len() > 0 ==> spec_reading(name + seq!['@'] + version) == Ok::<SpecModel, CliFault>(
            SpecModel { name, version: VersionAsked::Exact(version) },
        ),
        spec_reading(name + seq!['@']) == Err::<SpecModel, CliFault>(
            CliFault::EmptyVersion(name + seq!['@']),
        ),
        spec_reading(seq![]) == Err::<SpecModel, CliFault>(CliFault::EmptySpec),
{
    cutting_a_spec(name, version);
    cutting_a_spec(name, seq![]);
    assert(name + seq!['@'] + Seq::<char>::empty() =~= name + seq!['@']);
}

proof fn cutting_a_spec(name: Seq<char>, version: Seq<char>)
    requires
        plausible(name),
        !name.skip(1).contains('@'),
    ensures
        crate::cli::spec_halves(name + seq!['@'] + version) == Some((name, version)),
{
    let full = name + seq!['@'] + version;
    let n = name.len() as int;
    assert(full[0] == name[0]);
    if name[0] == '@' {
        let rest = full.skip(1);
        assert(rest[n - 1] == '@');
        assert forall|j: int| 0 <= j < n - 1 implies rest[j] != '@' by {
            assert(rest[j] == name.skip(1)[j]);
            assert(name.skip(1).contains(name.skip(1)[j]));
        }
        assert(is_first(rest, '@', n - 1));
        cut_first_at(rest, '@', n - 1);
        assert(seq!['@'] + rest.take(n - 1) =~= name);
        assert(rest.skip(n) =~= version);
    } else {
        assert(full[n] == '@');
        assert forall|j: int| 0 <= j < n implies full[j] != '@' by {
            if j > 0 {
                assert(full[j] == name.skip(1)[j - 1]);
                assert(name.skip(1).contains(name.skip(1)[j - 1]));
            }
        }
        assert(is_first(full, '@', n));
        cut_first_at(full, '@', n);
        assert(full.take(n) =~= name);
        assert(full.skip(n + 1) =~= version);
    }
}

/// Parsing a spec gives the name and the version that it was put together
/// from.
pub proof fn specs_read_back(
    input: &str,
    name: Seq<char>,
    version: Seq<char>,
    spec: Result<PackageSpec, crate::cli::CliError>,
)
    requires
        call_ensures(parse_package_spec, (input,), spec),
        input@ == name + seq!['@'] + version,
        plausible(name),
        !name.skip(1).contains('@'),
        version.len() > 0,
    ensures
        spec is Ok,
        (spec->Ok_0).deep_view().name == name,
        (spec->Ok_0).deep_view().version == VersionAsked::Exact(version),
{
    versions_follow_the_name(name, version);
}

/// What is declared with no colon in it asks for that range of the package it
/// is declared under.
pub proof fn plain_specifiers_are_ranges(name: Seq<char>, specifier: Seq<char>)
    requires
        !specifier.contains(':'),
    ensures
        asked_reading(name, specifier) == Ok::<AskedModel, ResolveFault>(
            AskedModel { name, range: specifier },
        ),
{
    reveal_strlit("npm:");
    if opens_with(specifier, ALIAS_PROTOCOL@) {
        assert(specifier.take(4)[3] == ':');
        assert(specifier[3] == ':');
        assert(specifier.contains(':'));
    }
}

/// An alias asks for a range of the package that it names, and for its latest
/// version where it names no range. What it is declared under does not count.
pub proof fn aliases_ask_for_what_they_name(name: Seq<char>, aliased: Seq<char>, range: Seq<char>)
    requires
        plausible(aliased),
        !aliased.skip(1).contains('@'),
        !range.contains('@'),
        range.len() > 0,
    ensures
        asked_reading(name, "npm:"@ + aliased + seq!['@'] + range) == Ok::<
            AskedModel,
            ResolveFault,
        >(AskedModel { name: aliased, range }),
        asked_reading(name, "npm:"@ + aliased) == Ok::<AskedModel, ResolveFault>(
            AskedModel { name: aliased, range: "latest"@ },
        ),
{
    reveal_strlit("npm:");
    let first = "npm:"@ + aliased + seq!['@'] + range;
    assert(first.take(4) =~= "npm:"@);
    let target = first.skip(4);
    let n = aliased.len() as int;
    assert(target =~= aliased + seq!['@'] + range);
    assert(target[n] == '@');
    assert forall|j: int| n < j < target.len() implies target[j] != '@' by {
        assert(target[j] == range[j - n - 1]);
        assert(range.contains(range[j - n - 1]));
    }
    assert(is_last(target, '@', n));
    cut_last_at(target, '@', n);
    assert(target.take(n) =~= aliased);
    assert(target.skip(n + 1) =~= range);
    let second = "npm:"@ + aliased;
    assert(second.take(4) =~= "npm:"@);
    assert(second.skip(4) =~= aliased);
    assert forall|j: int| 0 < j < n implies aliased[j] != '@' by {
        assert(aliased[j] == aliased.skip(1)[j - 1]);
        assert(aliased.skip(1).contains(aliased.skip(1)[j - 1]));
    }
    if aliased.contains('@') {
        let k = aliased.index_of('@');
        assert(k == 0);
        assert(is_last(aliased, '@', 0));
        cut_last_at(aliased, '@', 0);
        assert(aliased.take(0).len() == 0);
    }
}

/// Any other scheme is refused by its name, wherever it would lead.
pub proof fn other_schemes_are_refused(name: Seq<char>, scheme: Seq<char>, rest: Seq<char>)
    requires
        scheme.len() > 0,
        'a' <= scheme[0] <= 'z' || 'A' <= scheme[0] <= 'Z',
        forall|i: int| 0 < i < scheme.len() ==> {
            let c = #[trigger] scheme[i];
            'a' <= c <= 'z' || 'A' <= c <= 'Z' || '0' <= c <= '9' || c == '+' || c == '.' || c
                == '-'
        },
        scheme != "npm"@,
    ensures
        asked_reading(name, scheme + seq![':'] + rest) == Err::<AskedModel, ResolveFault>(
            ResolveFault::UnsupportedScheme {
                name,
                specifier: scheme + seq![':'] + rest,
                scheme,
            },
        ),
{
    reveal_strlit("npm:");
    reveal_strlit("npm");
    let full = scheme + seq![':'] + rest;
    let n = scheme.len() as int;
    assert(full[n] == ':');
    assert forall|j: int| 0 <= j < n implies full[j] != ':' by {
        assert(full[j] == scheme[j]);
        if j > 0 {
            assert(is_scheme_char(scheme[j]));
        }
    }
    assert(is_first(full, ':', n));
    cut_first_at(full, ':', n);
    assert(full.take(n) =~= scheme);
    assert forall|i: int| 0 < i < scheme.len() implies is_scheme_char(#[trigger] scheme[i]) by {}
    assert(is_letter(scheme[0]));
    if opens_with(full, ALIAS_PROTOCOL@) {
        let head = full.take(4);
        assert(head[0] == 'n' && head[1] == 'p' && head[2] == 'm' && head[3] == ':');
        assert(full[0] == 'n' && full[1] == 'p' && full[2] == 'm' && full[3] == ':');
        assert(n == 3) by {
            if n > 3 {
                assert(full[3] != ':');
            }
            if n < 3 {
                assert(full[n] == ':');
            }
        }
        assert(scheme =~= "npm"@);
    }
}

/// Of the patterns of a workspace every text counts, in order, and nothing else
/// does.
pub proof fn every_pattern_counts(a: Seq<Json>, b: Seq<Json>, text: Seq<char>, other: Json)
    ensures
        texts_among(a + b) == texts_among(a) + texts_among(b),
        texts_among(seq![Json::Text(text)]) == seq![text],
        !(other is Text) ==> texts_among(seq![other]) == Seq::<Seq<char>>::empty(),
    decreases b.len(),
{
    if b.len() == 0 {
        assert(a + b =~= a);
        assert(texts_among(a) + texts_among(b) =~= texts_among(a));
    } else {
        every_pattern_counts(a, b.drop_last(), text, other);
        assert((a + b).drop_last() =~= a + b.drop_last());
        assert(texts_among(a + b) =~= texts_among(a) + texts_among(b));
    }
    reveal_with_fuel(texts_among, 2);
    assert(seq![Json::Text(text)].drop_last() =~= seq![]);
    assert(texts_among(seq![Json::Text(text)]) =~= seq![text]);
    assert(seq![other].drop_last() =~= seq![]);
}

/// The patterns are those of the `workspaces` array, where there is one.
pub proof fn patterns_are_the_workspaces(members: Members, i: int)
    requires
        distinct(members),
        is_at(members, "workspaces"@, i),
    ensures
        members[i].1 is Array ==> patterns_in(members) == texts_among(members[i].1->Array_0),
        !(members[i].1 is Array) ==> patterns_in(members) == Seq::<Seq<char>>::empty(),
{
    one_place(members, "workspaces"@, i);
}

/// Is a dependency listed under a name in a section of a manifest, as a text?
pub open spec fn is_listed_in(
    members: Members,
    section: Seq<char>,
    name: Seq<char>,
    specifier: Seq<char>,
) -> bool {
    exists|i: int, j: int|
        {
            &&& #[trigger] is_at(members, section, i)
            &&& members[i].1 is Object
            &&& #[trigger] is_at(members[i].1->Object_0, name, j)
            &&& (members[i].1->Object_0)[j].1 == Json::Text(specifier)
        }
}

/// Does no object of a manifest have two members of one name?
pub open spec fn is_unambiguous(members: Members) -> bool {
    &&& distinct(members)
    &&& forall|i: int|
        0 <= i < members.len() && (#[trigger] members[i]).1 is Object ==> distinct(
            members[i].1->Object_0,
        )
}

/// A project declares what its manifest lists under `dependencies`, and what
/// it lists under `devDependencies` alone, each with the text it is listed
/// with, and nothing else.
pub proof fn manifests_declare_what_they_list(
    members: Members,
    name: Seq<char>,
    specifier: Seq<char>,
)
    requires
        is_unambiguous(members),
    ensures
        is_listed_in(members, "dependencies"@, name, specifier) <==> declared_in(
            members,
        ).contains_key(name) && declared_in(members)[name] == (DeclaredModel {
            specifier,
            kind: Kind::Prod,
        }),
        is_listed_in(members, "devDependencies"@, name, specifier) && (forall|other: Seq<char>|
            !is_listed_in(members, "dependencies"@, name, other)) <==> declared_in(
            members,
        ).contains_key(name) && declared_in(members)[name] == (DeclaredModel {
            specifier,
            kind: Kind::Dev,
        }),
{
    listing_reads(members, "dependencies"@, name);
    listing_reads(members, "devDependencies"@, name);
    let prod = crate::manifest::specifiers_in(members, "dependencies"@);
    if declared_in(members).contains_key(name) && prod.contains_key(name) {
        assert(is_listed_in(members, "dependencies"@, name, prod[name]));
    }
}

proof fn listing_reads(members: Members, section: Seq<char>, name: Seq<char>)
    requires
        is_unambiguous(members),
    ensures
        ({
            let listed = crate::manifest::specifiers_in(members, section);
            forall|specifier: Seq<char>| #[trigger]
                is_listed_in(members, section, name, specifier) <==> listed.contains_key(name)
                    && listed[name] == specifier
        }),
{
    let listed = crate::manifest::specifiers_in(members, section);
    assert forall|specifier: Seq<char>| #[trigger]
        is_listed_in(members, section, name, specifier) <==> listed.contains_key(name)
            && listed[name] == specifier by {
        if is_listed_in(members, section, name, specifier) {
            let (i, j) = choose|i: int, j: int|
                {
                    &&& #[trigger] is_at(members, section, i)
                    &&& members[i].1 is Object
                    &&& #[trigger] is_at(members[i].1->Object_0, name, j)
                    &&& (members[i].1->Object_0)[j].1 == Json::Text(specifier)
                };
            one_place(members, section, i);
            assert(members[i].1 is Object);
            one_place(members[i].1->Object_0, name, j);
        }
        if listed.contains_key(name) && listed[name] == specifier {
            let i = choose|i: int| is_at(members, section, i);
            assert(is_at(members, section, i));
            let inner = members[i].1->Object_0;
            let j = choose|j: int| is_at(inner, name, j);
            assert(is_at(inner, name, j));
        }
    }
}

} // verus!
