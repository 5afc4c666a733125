//! What a registry for tests holds once packages are put into it.

use vstd::prelude::*;
use crate::gates::{met_alone, names_in, waited_alone, HandshakeModel, RendezvousModel};
use crate::order::Key;
use crate::range::{has_prerelease, version_before, version_parses, Version};
use crate::registry::{published_versions, MetadataModel, RegistryFault, RequestModel};
use crate::sorted::{in_order, in_order_lists};
use crate::testing::{
    answer_in, highest_stable, latest_of, owner_among, owner_of, pairs_onto, tarball_in, total,
    with_version, FixtureModel,
};

verus! {

/// Of some versions in order, the last stable one.
proof fn stable_is_last(sorted: Seq<Seq<char>>)
    ensures
        match highest_stable(sorted) {
            Some(version) => exists|i: int|
                0 <= i < sorted.len() && #[trigger] sorted[i] == version && !has_prerelease(version)
                    && forall|j: int| i < j < sorted.len() ==> has_prerelease(#[trigger] sorted[j]),
            None => forall|j: int| 0 <= j < sorted.len() ==> has_prerelease(#[trigger] sorted[j]),
        },
    decreases sorted.len(),
{
    if sorted.len() > 0 {
        let n = sorted.len() - 1;
        assert(sorted[n] == sorted.last());
        if has_prerelease(sorted.last()) {
            let shorter = sorted.drop_last();
            stable_is_last(shorter);
            match highest_stable(shorter) {
                Some(version) => {
                    let i = choose|i: int|
                        0 <= i < shorter.len() && #[trigger] shorter[i] == version
                            && !has_prerelease(version) && forall|j: int|
                            i < j < shorter.len() ==> has_prerelease(#[trigger] shorter[j]);
                    assert(sorted[i] == version);
                    assert forall|j: int| i < j < sorted.len() implies has_prerelease(
                        #[trigger] sorted[j],
                    ) by {
                        if j < n {
                            assert(shorter[j] == sorted[j]);
                        }
                    }
                },
                None => {
                    assert forall|j: int| 0 <= j < sorted.len() implies has_prerelease(
                        #[trigger] sorted[j],
                    ) by {
                        if j < n {
                            assert(shorter[j] == sorted[j]);
                        }
                    }
                },
            }
        }
    }
}

/// The latest version is one that is published, and the highest that is no
/// prerelease, unless all are. Then it is the highest of all.
pub proof fn the_latest_is_the_highest_stable(
    published: Set<Seq<char>>,
    otherwise: Seq<char>,
    other: Seq<char>,
)
    requires
        published.finite(),
        published.contains(other),
        version_parses(other),
    ensures
        published.contains(latest_of(published, otherwise)),
        !has_prerelease(other) ==> !has_prerelease(latest_of(published, otherwise)),
        has_prerelease(other) ==> (has_prerelease(latest_of(published, otherwise))
            ==> !version_before(latest_of(published, otherwise), other)),
        !has_prerelease(other) ==> !version_before(latest_of(published, otherwise), other),
{
    let parsed = published.filter(|v: Seq<char>| version_parses(v));
    published.lemma_len_filter(|v: Seq<char>| version_parses(v));
    in_order_lists::<Version>(parsed);
    let sorted = published_versions(published);
    let latest = latest_of(published, otherwise);
    stable_is_last(sorted);
    assert(parsed.contains(other));
    assert(sorted.to_set().contains(other));
    let k = sorted.index_of(other);
    assert(sorted[k] == other);
    let i = match highest_stable(sorted) {
        Some(version) => choose|i: int|
            0 <= i < sorted.len() && #[trigger] sorted[i] == version && !has_prerelease(version)
                && forall|j: int| i < j < sorted.len() ==> has_prerelease(#[trigger] sorted[j]),
        None => sorted.len() - 1,
    };
    assert(sorted[i] == latest);
    assert(sorted.to_set().contains(sorted[i]));
    assert(parsed.contains(latest));
    if k <= i {
        if version_before(latest, other) {
            if k < i {
                assert(Version::before(sorted[k], sorted[i]));
                Version::before_transitive(latest, other, latest);
            }
            Version::before_irreflexive(latest);
        }
    }
}

/// What was put into the registry is what it answers with and what it serves,
/// and nothing of any other package changes.
pub proof fn what_was_put_in_is_served(
    fixture: FixtureModel,
    metadata: MetadataModel,
    tarball: Seq<u8>,
    request: RequestModel,
    other: Seq<char>,
)
    requires
        !fixture.current.contains_key(metadata.name),
    ensures
        ({
            let after = with_version(fixture, metadata, tarball);
            &&& request.name == metadata.name ==> answer_in(after, request) is Ok && (answer_in(
                after,
                request,
            )->Ok_0).versions.contains_key(metadata.version) && (answer_in(
                after,
                request,
            )->Ok_0).versions[metadata.version] == metadata
            &&& request.name == metadata.name && other != metadata.version
                && fixture.packuments.contains_key(metadata.name)
                && fixture.packuments[metadata.name].versions.contains_key(other) ==> (answer_in(
                after,
                request,
            )->Ok_0).versions[other] == fixture.packuments[metadata.name].versions[other]
            &&& request.name != metadata.name ==> answer_in(after, request) == answer_in(
                fixture,
                request,
            )
            &&& tarball_in(after, metadata.dist.tarball) == Ok::<Seq<u8>, RegistryFault>(tarball)
            &&& other != metadata.dist.tarball ==> tarball_in(after, other) == tarball_in(
                fixture,
                other,
            )
        }),
{
}

/// A later pair takes the place of an earlier one under the same name, and all
/// the others stay.
pub proof fn later_pairs_win<'a>(
    before: Map<Seq<char>, Seq<char>>,
    pairs: Seq<(&'a str, &'a str)>,
    i: int,
    name: Seq<char>,
)
    ensures
        0 <= i < pairs.len() && (forall|j: int|
            i < j < pairs.len() ==> (#[trigger] pairs[j]).0@ != pairs[i].0@) ==> pairs_onto(
            before,
            pairs,
        ).contains_key(pairs[i].0@) && pairs_onto(before, pairs)[pairs[i].0@] == pairs[i].1@,
        (forall|j: int| 0 <= j < pairs.len() ==> (#[trigger] pairs[j]).0@ != name) ==> (pairs_onto(
            before,
            pairs,
        ).contains_key(name) <==> before.contains_key(name)) && (before.contains_key(name)
            ==> pairs_onto(before, pairs)[name] == before[name]),
    decreases pairs.len(),
{
    if pairs.len() > 0 {
        let shorter = pairs.drop_last();
        let n = pairs.len() - 1;
        later_pairs_win(before, shorter, i, name);
        assert(pairs[n] == pairs.last());
        assert forall|j: int| 0 <= j < n implies shorter[j] == pairs[j] by {}
        if 0 <= i < n && (forall|j: int|
            i < j < pairs.len() ==> (#[trigger] pairs[j]).0@ != pairs[i].0@) {
            assert forall|j: int| i < j < shorter.len() implies (#[trigger] shorter[j]).0@
                != shorter[i].0@ by {
                assert(pairs[j].0@ != pairs[i].0@);
            }
            assert(pairs[n].0@ != pairs[i].0@);
        }
        if forall|j: int| 0 <= j < pairs.len() ==> (#[trigger] pairs[j]).0@ != name {
            assert forall|j: int| 0 <= j < shorter.len() implies (#[trigger] shorter[j]).0@
                != name by {
                assert(pairs[j].0@ != name);
            }
            assert(pairs[n].0@ != name);
        }
    }
}

/// All calls are counted together: the count over two runs of names is the sum
/// of the counts over each.
pub proof fn counts_add_up(calls: Map<Seq<char>, usize>, a: Seq<Seq<char>>, b: Seq<Seq<char>>)
    ensures
        total(calls, a + b) == total(calls, a) + total(calls, b),
        a.len() == 1 ==> total(calls, a) == calls[a[0]],
    decreases b.len(),
{
    reveal_with_fuel(total, 2);
    if b.len() == 0 {
        assert(a + b =~= a);
    } else {
        counts_add_up(calls, a, b.drop_last());
        assert((a + b).drop_last() =~= a + b.drop_last());
    }
}

/// A set of names holds each of them and nothing else.
pub proof fn sets_of_names_hold_each<'a>(names: Seq<&'a str>, name: Seq<char>)
    ensures
        names_in(names).contains(name) <==> exists|i: int|
            0 <= i < names.len() && (#[trigger] names[i])@ == name,
    decreases names.len(),
{
    if names.len() > 0 {
        let shorter = names.drop_last();
        let n = names.len() - 1;
        sets_of_names_hold_each(shorter, name);
        assert(names[n] == names.last());
        if names_in(shorter).contains(name) {
            let i = choose|i: int| 0 <= i < shorter.len() && (#[trigger] shorter[i])@ == name;
            assert(names[i] == shorter[i]);
        }
        if exists|i: int| 0 <= i < names.len() && (#[trigger] names[i])@ == name {
            let i = choose|i: int| 0 <= i < names.len() && (#[trigger] names[i])@ == name;
            if i < n {
                assert(shorter[i] == names[i]);
            }
        }
    }
}

/// Whoever comes to a meeting of more than one alone breaks it up, unless it
/// was over already, and one who waits alone for something that never came
/// does so too. What is broken stays broken.
pub proof fn lone_meetings_break(gate: RendezvousModel, shake: HandshakeModel, name: Seq<char>)
    ensures
        met_alone(gate).broken <==> gate.broken || (gate.width > 1 && !gate.released),
        met_alone(gate).released,
        met_alone(gate).high_water >= 1 && met_alone(gate).high_water >= gate.high_water,
        met_alone(met_alone(gate)) == met_alone(gate),
        waited_alone(shake, name).broken <==> shake.broken || (shake.only.contains(name)
            && !shake.open),
        waited_alone(waited_alone(shake, name), name) == waited_alone(shake, name),
{
}

proof fn owners_own(
    fixture: FixtureModel,
    keys: Seq<(Seq<char>, Seq<char>)>,
    url: Seq<char>,
)
    ensures
        match owner_among(fixture, keys, url) {
            Some(name) => exists|i: int|
                0 <= i < keys.len() && fixture.versions[#[trigger] keys[i]].dist.tarball == url
                    && fixture.versions[keys[i]].name == name,
            None => forall|i: int|
                0 <= i < keys.len() ==> fixture.versions[#[trigger] keys[i]].dist.tarball != url,
        },
    decreases keys.len(),
{
    if keys.len() > 0 {
        let shorter = keys.drop_last();
        let n = keys.len() - 1;
        owners_own(fixture, shorter, url);
        assert(keys[n] == keys.last());
        match owner_among(fixture, shorter, url) {
            Some(name) => {
                let i = choose|i: int|
                    0 <= i < shorter.len() && fixture.versions[#[trigger] shorter[i]].dist.tarball
                        == url && fixture.versions[shorter[i]].name == name;
                assert(keys[i] == shorter[i]);
            },
            None => {
                assert forall|i: int| 0 <= i < n implies fixture.versions[
                    #[trigger] keys[i]
                ].dist.tarball != url by {
                    assert(shorter[i] == keys[i]);
                }
            },
        }
    }
}

/// An address is owned by a package that a version of is at it, and by nobody
/// only where none is.
pub proof fn addresses_have_owners(
    fixture: FixtureModel,
    url: Seq<char>,
    key: (Seq<char>, Seq<char>),
)
    requires
        fixture.versions.dom().finite(),
        fixture.versions.contains_key(key),
    ensures
        match owner_of(fixture, url) {
            Some(name) => exists|at: (Seq<char>, Seq<char>)| #[trigger]
                fixture.versions.contains_key(at) && fixture.versions[at].dist.tarball == url
                    && fixture.versions[at].name == name,
            None => fixture.versions[key].dist.tarball != url,
        },
{
    let keys = in_order::<(String, String)>(fixture.versions.dom());
    in_order_lists::<(String, String)>(fixture.versions.dom());
    owners_own(fixture, keys, url);
    assert(keys.to_set().contains(key));
    let k = keys.index_of(key);
    assert(keys[k] == key);
    match owner_of(fixture, url) {
        Some(name) => {
            let i = choose|i: int|
                0 <= i < keys.len() && fixture.versions[#[trigger] keys[i]].dist.tarball == url
                    && fixture.versions[keys[i]].name == name;
            assert(keys.to_set().contains(keys[i]));
            assert(fixture.versions.contains_key(keys[i]));
        },
        None => {},
    }
}

} // verus!
