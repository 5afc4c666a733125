//! npm version ranges, and the only module that names `js_semver`.
//!
//! Versions and ranges are carried as the text they were read from, so a
//! round trip never normalises what the registry said. What the text means is
//! asked of `js_semver` each time.

use vstd::prelude::*;
use vstd::string::*;
use crate::order::{
    lex_before, lex_irreflexive, lex_total, lex_transitive, Duplicate, Key, Order,
};
use crate::text::{order_of, text_before};

verus! {

/// Why a version or a range was refused.
#[derive(Debug)]
pub enum RangeError {
    BadVersion(String),
    Unparseable(String),
}

/// What a [`RangeError`] says.
pub enum RangeFault {
    BadVersion(Seq<char>),
    Unparseable(Seq<char>),
}

impl DeepView for RangeError {
    type V = RangeFault;

    open spec fn deep_view(&self) -> RangeFault {
        match self {
            RangeError::BadVersion(text) => RangeFault::BadVersion(text@),
            RangeError::Unparseable(text) => RangeFault::Unparseable(text@),
        }
    }
}

/// Does `js_semver::Version::parse` accept this text?
pub uninterp spec fn version_parses(text: Seq<char>) -> bool;

/// A key whose lexicographic order is the precedence that
/// `Ord for js_semver::Version` gives parsed versions: the three numbers, then
/// the prerelease identifiers, build metadata left out.
pub uninterp spec fn precedence(text: Seq<char>) -> Seq<int>;

/// Does the parsed version carry prerelease identifiers?
pub uninterp spec fn has_prerelease(text: Seq<char>) -> bool;

/// Does `js_semver::Range::parse` accept this text?
pub uninterp spec fn range_parses(text: Seq<char>) -> bool;

/// Do both texts parse, and does the version satisfy the range by
/// `js_semver::Range::satisfies`?
pub uninterp spec fn range_admits(range: Seq<char>, version: Seq<char>) -> bool;

/// `js_semver::Version::parse`: whether the text is a version.
#[verifier::external_body]
fn is_version(text: &str) -> (yes: bool)
    ensures
        yes == version_parses(text@),
{
    js_semver::Version::parse(text).is_ok()
}

/// `Ord for js_semver::Version`: how two versions stand in precedence.
///
/// The order is total on parsed versions: it goes by major, minor and patch,
/// then by the prerelease identifiers, and a version without any comes last.
/// That is what a lexicographic order on keys says.
#[verifier::external_body]
fn order_versions(a: &str, b: &str) -> (order: Order)
    requires
        version_parses(a@),
        version_parses(b@),
    ensures
        order is Before <==> lex_before(precedence(a@), precedence(b@)),
        order is Same <==> precedence(a@) == precedence(b@),
        order is After <==> lex_before(precedence(b@), precedence(a@)),
{
    let left = js_semver::Version::parse(a).unwrap();
    let right = js_semver::Version::parse(b).unwrap();
    match left.cmp(&right) {
        std::cmp::Ordering::Less => Order::Before,
        std::cmp::Ordering::Equal => Order::Same,
        std::cmp::Ordering::Greater => Order::After,
    }
}

/// `js_semver::PreRelease::is_empty` on a parsed version, negated.
#[verifier::external_body]
fn carries_prerelease(text: &str) -> (yes: bool)
    requires
        version_parses(text@),
    ensures
        yes == has_prerelease(text@),
{
    !js_semver::Version::parse(text).unwrap().pre_release.is_empty()
}

/// `js_semver::Range::parse`: whether the text is a range.
#[verifier::external_body]
fn is_range(text: &str) -> (yes: bool)
    ensures
        yes == range_parses(text@),
{
    js_semver::Range::parse(text).is_ok()
}

/// `js_semver::Range::satisfies`, on texts: no unparseable text satisfies
/// anything or is satisfied by anything.
#[verifier::external_body]
fn admits(range: &str, version: &str) -> (yes: bool)
    ensures
        yes == range_admits(range@, version@),
        yes ==> range_parses(range@),
        yes ==> version_parses(version@),
{
    match (js_semver::Range::parse(range), js_semver::Version::parse(version)) {
        (Ok(range), Ok(version)) => range.satisfies(&version),
        _ => false,
    }
}

/// A concrete semantic version, under the registry's own spelling.
#[derive(Debug)]
pub struct Version {
    raw: String,
}

impl DeepView for Version {
    type V = Seq<char>;

    closed spec fn deep_view(&self) -> Seq<char> {
        self.raw@
    }
}

impl Version {
    #[verifier::type_invariant]
    spec fn well_formed(self) -> bool {
        version_parses(self.raw@)
    }

    /// Read a version, keeping its spelling.
    pub fn parse(input: &str) -> (parsed: Result<Self, RangeError>)
        ensures
            match parsed {
                Ok(version) => version_parses(input@) && version.deep_view() == input@,
                Err(RangeError::BadVersion(text)) => !version_parses(input@) && text@ == input@,
                Err(_) => false,
            },
    {
        if is_version(input) {
            Ok(Version { raw: input.to_owned() })
        } else {
            Err(RangeError::BadVersion(input.to_owned()))
        }
    }

    /// The version as it was spelled.
    pub fn as_str(&self) -> (text: &str)
        ensures
            text@ == self.deep_view(),
            version_parses(text@),
    {
        proof {
            use_type_invariant(self);
        }
        self.raw.as_str()
    }

    /// Is this a prerelease: `5.0.0-beta.1` rather than `5.0.0`?
    pub fn is_prerelease(&self) -> (yes: bool)
        ensures
            yes == has_prerelease(self.deep_view()),
    {
        carries_prerelease(self.as_str())
    }

    /// How this version stands to another in precedence.
    pub fn weigh(&self, other: &Version) -> (order: Order)
        ensures
            order is Before <==> lex_before(
                precedence(self.deep_view()),
                precedence(other.deep_view()),
            ),
            order is Same <==> precedence(self.deep_view()) == precedence(other.deep_view()),
            order is After <==> lex_before(
                precedence(other.deep_view()),
                precedence(self.deep_view()),
            ),
    {
        order_versions(self.as_str(), other.as_str())
    }
}

impl Duplicate for Version {
    fn duplicate(&self) -> (copy: Self) {
        proof {
            use_type_invariant(self);
        }
        Version { raw: self.raw.clone() }
    }
}

/// Versions listed lowest precedence first, and by spelling among equals.
pub open spec fn version_before(a: Seq<char>, b: Seq<char>) -> bool {
    if precedence(a) != precedence(b) {
        lex_before(precedence(a), precedence(b))
    } else {
        text_before(a, b)
    }
}

impl Key for Version {
    open spec fn before(a: Seq<char>, b: Seq<char>) -> bool {
        version_before(a, b)
    }

    proof fn before_irreflexive(a: Seq<char>) {
        String::before_irreflexive(a);
    }

    proof fn before_transitive(a: Seq<char>, b: Seq<char>, c: Seq<char>) {
        if precedence(a) != precedence(b) && precedence(b) != precedence(c) {
            lex_transitive(precedence(a), precedence(b), precedence(c));
            lex_irreflexive(precedence(a));
        } else if precedence(a) == precedence(b) && precedence(b) == precedence(c) {
            String::before_transitive(a, b, c);
        }
    }

    proof fn before_total(a: Seq<char>, b: Seq<char>) {
        lex_total(precedence(a), precedence(b));
        String::before_total(a, b);
    }

    fn order(&self, other: &Self) -> (order: Order) {
        proof {
            let a = precedence(self.deep_view());
            let b = precedence(other.deep_view());
            lex_irreflexive(a);
            if lex_before(a, b) && lex_before(b, a) {
                lex_transitive(a, b, a);
            }
            String::before_irreflexive(self.deep_view());
        }
        match self.weigh(other) {
            Order::Same => order_of(self.as_str(), other.as_str()),
            other => other,
        }
    }
}

/// Is this the place of the version that a range picks: the highest of those
/// it admits, and the last of them among equals?
pub open spec fn is_pick(range: Seq<char>, versions: Seq<Seq<char>>, i: int) -> bool {
    &&& 0 <= i < versions.len()
    &&& range_admits(range, versions[i])
    &&& forall|j: int|
        0 <= j < i && range_admits(range, #[trigger] versions[j]) ==> !lex_before(
            precedence(versions[i]),
            precedence(versions[j]),
        )
    &&& forall|j: int|
        i < j < versions.len() && range_admits(range, #[trigger] versions[j]) ==> lex_before(
            precedence(versions[j]),
            precedence(versions[i]),
        )
}

/// A list has at most one pick.
pub proof fn picks_are_unique(range: Seq<char>, versions: Seq<Seq<char>>, i: int, j: int)
    requires
        is_pick(range, versions, i),
        is_pick(range, versions, j),
    ensures
        i == j,
{
    if i < j {
        assert(range_admits(range, versions[j]));
        assert(range_admits(range, versions[i]));
    } else if j < i {
        assert(range_admits(range, versions[j]));
        assert(range_admits(range, versions[i]));
    }
}

/// The version that a range picks from a list, if it admits any of them.
pub open spec fn best_of(range: Seq<char>, versions: Seq<Seq<char>>) -> Option<Seq<char>> {
    if exists|i: int| is_pick(range, versions, i) {
        Some(versions[choose|i: int| is_pick(range, versions, i)])
    } else {
        None
    }
}

/// An npm version range: `^1.2.3`, `1.2.x`, `>=1 <2`, `1.2.3 - 2.0.0`, unions.
#[derive(Debug)]
pub struct Range {
    raw: String,
}

impl DeepView for Range {
    type V = Seq<char>;

    closed spec fn deep_view(&self) -> Seq<char> {
        self.raw@
    }
}

impl Range {
    /// Read a range.
    pub fn parse(input: &str) -> (parsed: Result<Self, RangeError>)
        ensures
            match parsed {
                Ok(range) => range_parses(input@) && range.deep_view() == input@,
                Err(RangeError::Unparseable(text)) => !range_parses(input@) && text@ == input@,
                Err(_) => false,
            },
    {
        if is_range(input) {
            Ok(Range { raw: input.to_owned() })
        } else {
            Err(RangeError::Unparseable(input.to_owned()))
        }
    }

    /// Does a version satisfy this range?
    pub fn matches(&self, version: &Version) -> (yes: bool)
        ensures
            yes == range_admits(self.deep_view(), version.deep_view()),
    {
        admits(self.raw.as_str(), version.as_str())
    }

    /// Does this range rule nothing out?
    ///
    /// `*` has several spellings, so the question is asked of what the range
    /// admits: the lowest version there is, and the highest one the domain
    /// can express, each component being the largest integer a JavaScript
    /// number holds exactly.
    pub fn admits_everything(&self) -> (yes: bool)
        ensures
            yes == (range_admits(self.deep_view(), "0.0.0"@) && range_admits(
                self.deep_view(),
                "9007199254740991.9007199254740991.9007199254740991"@,
            )),
    {
        admits(self.raw.as_str(), "0.0.0") && admits(
            self.raw.as_str(),
            "9007199254740991.9007199254740991.9007199254740991",
        )
    }

    /// The highest published version satisfying this range, the last one
    /// among equals, or nothing when the range is unsatisfiable here.
    pub fn max_satisfying<'v>(&self, versions: &'v Vec<Version>) -> (chosen: Option<&'v Version>)
        ensures
            match chosen {
                Some(version) => exists|i: int|
                    is_pick(self.deep_view(), versions.deep_view(), i) && version.deep_view()
                        == versions.deep_view()[i],
                None => forall|i: int|
                    0 <= i < versions@.len() ==> !range_admits(
                        self.deep_view(),
                        #[trigger] versions.deep_view()[i],
                    ),
            },
            match chosen {
                Some(version) => best_of(self.deep_view(), versions.deep_view()) == Some(
                    version.deep_view(),
                ),
                None => best_of(self.deep_view(), versions.deep_view()) is None,
            },
    {
        let ghost range = self.deep_view();
        let ghost all = versions.deep_view();
        let mut best: Option<usize> = None;
        let mut i: usize = 0;
        while i < versions.len()
            invariant
                i <= versions@.len(),
                range == self.deep_view(),
                all == versions.deep_view(),
                match best {
                    Some(b) => b < i && is_pick(range, all.take(i as int), b as int),
                    None => forall|j: int| 0 <= j < i ==> !range_admits(range, #[trigger] all[j]),
                },
            decreases versions.len() - i,
        {
            let ghost now = all.take(i + 1);
            assert(forall|j: int| 0 <= j < i ==> now[j] == #[trigger] all[j]);
            assert(forall|j: int| 0 <= j < i ==> all.take(i as int)[j] == #[trigger] all[j]);
            assert(now[i as int] == versions@[i as int].deep_view());
            if self.matches(&versions[i]) {
                let take = match best {
                    Some(b) => {
                        proof {
                            lex_total(precedence(all[i as int]), precedence(all[b as int]));
                            lex_irreflexive(precedence(all[i as int]));
                        }
                        match versions[i].weigh(&versions[b]) {
                            Order::Before => false,
                            _ => true,
                        }
                    },
                    None => true,
                };
                if take {
                    proof {
                        match best {
                            Some(b) => {
                                assert forall|j: int|
                                    0 <= j < i && range_admits(range, #[trigger] now[j]) implies !lex_before(
                                    precedence(now[i as int]),
                                    precedence(now[j]),
                                ) by {
                                    let pi = precedence(all[i as int]);
                                    let pb = precedence(all[b as int]);
                                    let pj = precedence(all[j]);
                                    assert(range_admits(range, all.take(i as int)[j]));
                                    if lex_before(pi, pj) {
                                        if j < b {
                                            lex_total(pb, pj);
                                            if lex_before(pj, pb) {
                                                lex_transitive(pi, pj, pb);
                                            }
                                        } else if j > b {
                                            lex_transitive(pi, pj, pb);
                                        }
                                    }
                                }
                            },
                            None => {},
                        }
                        assert(is_pick(range, now, i as int));
                    }
                    best = Some(i);
                } else {
                    proof {
                        let b = best->0;
                        assert(is_pick(range, now, b as int)) by {
                            assert forall|j: int|
                                0 <= j < b && range_admits(range, #[trigger] now[j]) implies !lex_before(
                                precedence(now[b as int]),
                                precedence(now[j]),
                            ) by {
                                assert(range_admits(range, all.take(i as int)[j]));
                            }
                            assert forall|j: int|
                                b < j < now.len() && range_admits(range, #[trigger] now[j]) implies lex_before(
                                precedence(now[j]),
                                precedence(now[b as int]),
                            ) by {
                                if j < i {
                                    assert(range_admits(range, all.take(i as int)[j]));
                                }
                            }
                        }
                    }
                }
            } else {
                proof {
                    if best is Some {
                        let b = best->0;
                        assert(is_pick(range, now, b as int)) by {
                            assert forall|j: int|
                                0 <= j < b && range_admits(range, #[trigger] now[j]) implies !lex_before(
                                precedence(now[b as int]),
                                precedence(now[j]),
                            ) by {
                                assert(range_admits(range, all.take(i as int)[j]));
                            }
                            assert forall|j: int|
                                b < j < now.len() && range_admits(range, #[trigger] now[j]) implies lex_before(
                                precedence(now[j]),
                                precedence(now[b as int]),
                            ) by {
                                assert(j < i);
                                assert(range_admits(range, all.take(i as int)[j]));
                            }
                        }
                    }
                }
            }
            i = i + 1;
        }
        assert(all.take(all.len() as int) =~= all);
        match best {
            Some(b) => {
                assert(all[b as int] == versions@[b as int].deep_view());
                proof {
                    let k = choose|k: int| is_pick(range, all, k);
                    picks_are_unique(range, all, b as int, k);
                }
                Some(&versions[b])
            },
            None => None,
        }
    }
}

/// Does this version satisfy this range? Nonsense on either side does not.
pub fn satisfies(version: &str, range: &str) -> (yes: bool)
    ensures
        yes == range_admits(range@, version@),
{
    admits(range, version)
}

} // verus!
