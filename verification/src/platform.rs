//! The machine an install is for, and the machines a package runs on.

use vstd::prelude::*;
use vstd::string::*;
use crate::order::Duplicate;
use crate::text::{after_opening, same};

verus! {

/// The machine an install is happening on, in Node's spelling: `darwin` and
/// `x64` rather than Rust's `macos` and `x86_64`.
#[derive(Debug)]
pub struct Platform {
    os: String,
    cpu: String,
}

/// What a [`Platform`] means.
pub struct PlatformModel {
    pub os: Seq<char>,
    pub cpu: Seq<char>,
}

impl DeepView for Platform {
    type V = PlatformModel;

    closed spec fn deep_view(&self) -> PlatformModel {
        PlatformModel { os: self.os@, cpu: self.cpu@ }
    }
}

impl Duplicate for Platform {
    fn duplicate(&self) -> (copy: Self) {
        Platform { os: self.os.clone(), cpu: self.cpu.clone() }
    }
}

impl Platform {
    /// A named machine.
    pub fn new(os: &str, cpu: &str) -> (platform: Self)
        ensures
            platform.deep_view() == (PlatformModel { os: os@, cpu: cpu@ }),
    {
        Platform { os: os.to_owned(), cpu: cpu.to_owned() }
    }

    /// The machine that Rust names this way, in Node's spelling.
    pub fn from_rust(os: &str, cpu: &str) -> (platform: Self)
        ensures
            platform.deep_view() == (PlatformModel {
                os: os_in_node(os@),
                cpu: cpu_in_node(cpu@),
            }),
    {
        Platform::new(node_os(os), node_cpu(cpu))
    }

    /// `linux-x64`, which is how the ecosystem names a platform.
    pub fn to_string(&self) -> (text: String)
        ensures
            text@ == self.deep_view().os + "-"@ + self.deep_view().cpu,
    {
        let mut text = self.os.clone();
        text.append("-");
        text.append(self.cpu.as_str());
        text
    }
}

/// Rust's platform name in Node's spelling. A name that neither differs nor
/// is known passes through.
pub open spec fn os_in_node(rust: Seq<char>) -> Seq<char> {
    if rust == "macos"@ {
        "darwin"@
    } else {
        rust
    }
}

/// Rust's architecture name in Node's spelling.
pub open spec fn cpu_in_node(rust: Seq<char>) -> Seq<char> {
    if rust == "x86_64"@ {
        "x64"@
    } else if rust == "aarch64"@ {
        "arm64"@
    } else if rust == "x86"@ {
        "ia32"@
    } else {
        rust
    }
}

/// Rust's platform name in Node's spelling.
pub fn node_os<'a>(rust: &'a str) -> (node: &'a str)
    ensures
        node@ == os_in_node(rust@),
{
    if same(rust, "macos") {
        "darwin"
    } else {
        rust
    }
}

/// Rust's architecture name in Node's spelling.
pub fn node_cpu<'a>(rust: &'a str) -> (node: &'a str)
    ensures
        node@ == cpu_in_node(rust@),
{
    if same(rust, "x86_64") {
        "x64"
    } else if same(rust, "aarch64") {
        "arm64"
    } else if same(rust, "x86") {
        "ia32"
    } else {
        rust
    }
}

/// What a package published about the machines it runs on: its `os` and `cpu`
/// lists, verbatim. Kept that way because a lockfile records them, and every
/// machine reading it reaches its own conclusion.
#[derive(Debug)]
pub struct PlatformSupport {
    pub os: Vec<String>,
    pub cpu: Vec<String>,
}

/// What a [`PlatformSupport`] means.
pub struct SupportModel {
    pub os: Seq<Seq<char>>,
    pub cpu: Seq<Seq<char>>,
}

impl DeepView for PlatformSupport {
    type V = SupportModel;

    open spec fn deep_view(&self) -> SupportModel {
        SupportModel { os: self.os.deep_view(), cpu: self.cpu.deep_view() }
    }
}

impl Duplicate for PlatformSupport {
    fn duplicate(&self) -> (copy: Self) {
        PlatformSupport { os: self.os.duplicate(), cpu: self.cpu.duplicate() }
    }
}

/// Is this entry of an `os` or `cpu` list a negated one?
pub open spec fn is_negated(entry: Seq<char>) -> bool {
    entry.len() > 0 && entry[0] == '!'
}

/// npm's rule for an `os` or `cpu` list. The single entry `any` admits
/// anything. Otherwise a matching negated entry rejects, and short of that
/// the list admits if a plain entry matches or if every entry is negated.
pub open spec fn list_admits(list: Seq<Seq<char>>, value: Seq<char>) -> bool {
    ||| list == seq!["any"@]
    ||| {
        &&& !list.contains(seq!['!'] + value)
        &&& {
            ||| exists|i: int| 0 <= i < list.len() && !is_negated(list[i]) && list[i] == value
            ||| forall|i: int| 0 <= i < list.len() ==> is_negated(#[trigger] list[i])
        }
    }
}

/// Does a package run on a platform? Both lists must admit it.
pub open spec fn support_admits(support: SupportModel, platform: PlatformModel) -> bool {
    list_admits(support.os, platform.os) && list_admits(support.cpu, platform.cpu)
}

impl PlatformSupport {
    /// Will this package run here?
    pub fn admits(&self, platform: &Platform) -> (yes: bool)
        ensures
            yes == support_admits(self.deep_view(), platform.deep_view()),
    {
        admits_value(&self.os, platform.os.as_str()) && admits_value(
            &self.cpu,
            platform.cpu.as_str(),
        )
    }
}

/// npm's `os` and `cpu` list rule.
pub fn admits_value(list: &Vec<String>, value: &str) -> (yes: bool)
    ensures
        yes == list_admits(list.deep_view(), value@),
{
    let ghost all = list.deep_view();
    proof {
        reveal_strlit("!");
        reveal_strlit("any");
    }
    if list.len() == 1 && same(list[0].as_str(), "any") {
        assert(all =~= seq!["any"@]);
        return true;
    }
    let ghost forbidden = seq!['!'] + value@;
    assert(all != seq!["any"@]) by {
        if all == seq!["any"@] {
            assert(all.len() == 1 && all[0] == "any"@);
            assert(list@[0]@ == all[0]);
        }
    }
    let mut all_negated = true;
    let mut matched = false;
    let mut i: usize = 0;
    while i < list.len()
        invariant
            i <= list@.len(),
            all == list.deep_view(),
            all != seq!["any"@],
            forbidden == seq!['!'] + value@,
            "!"@.len() == 1,
            "!"@[0] == '!',
            forall|j: int| 0 <= j < i ==> #[trigger] all[j] != forbidden,
            all_negated == (forall|j: int| 0 <= j < i ==> is_negated(#[trigger] all[j])),
            matched == (exists|j: int| 0 <= j < i && !is_negated(all[j]) && all[j] == value@),
        decreases list.len() - i,
    {
        let entry = list[i].as_str();
        assert(entry@ == all[i as int]);
        match after_opening(entry, "!") {
            Some(rest) => {
                assert(entry@.take(1)[0] == '!');
                assert(entry@ =~= seq!['!'] + rest@);
                if same(rest, value) {
                    assert(all[i as int] == forbidden);
                    return false;
                }
                assert(entry@ != forbidden) by {
                    if entry@ == forbidden {
                        assert(rest@ =~= forbidden.skip(1));
                        assert(value@ =~= forbidden.skip(1));
                    }
                }
            },
            None => {
                proof {
                    if is_negated(entry@) {
                        assert(entry@.take(1) =~= "!"@);
                    }
                }
                all_negated = false;
                assert(!is_negated(all[i as int]));
                if same(entry, value) {
                    matched = true;
                }
            },
        }
        i = i + 1;
    }
    matched || all_negated
}

/// A package that declares neither list runs everywhere.
pub proof fn no_constraint_admits_everything(platform: PlatformModel)
    ensures
        support_admits((SupportModel { os: seq![], cpu: seq![] }), platform),
{
}

/// A list becomes a whitelist the moment a plain entry appears in it: it then
/// admits only what it names.
pub proof fn a_plain_entry_makes_a_whitelist(list: Seq<Seq<char>>, value: Seq<char>)
    requires
        list_admits(list, value),
        exists|i: int| 0 <= i < list.len() && !is_negated(#[trigger] list[i]),
        list != seq!["any"@],
    ensures
        list.contains(value),
{
    let i = choose|i: int| 0 <= i < list.len() && !is_negated(#[trigger] list[i]);
    assert(!is_negated(list[i]));
}

/// A value that a list names, and does not name behind a `!`, is admitted,
/// wherever in the list it stands.
pub proof fn what_is_named_is_admitted(list: Seq<Seq<char>>, value: Seq<char>)
    requires
        list.contains(value),
        !list.contains(seq!['!'] + value),
        value.len() == 0 || value[0] != '!',
    ensures
        list_admits(list, value),
{
    let i = list.index_of(value);
    assert(!is_negated(list[i]) && list[i] == value);
}

/// A value that a list names behind a `!` is refused, whatever else the list
/// says.
pub proof fn what_is_negated_is_refused(list: Seq<Seq<char>>, value: Seq<char>)
    requires
        list.contains(seq!['!'] + value),
    ensures
        !list_admits(list, value),
{
    reveal_strlit("any");
    if list == seq!["any"@] {
        let i = list.index_of(seq!['!'] + value);
        assert(list[i] == "any"@);
        assert((seq!['!'] + value)[0] == '!');
        assert("any"@[0] == 'a');
    }
}

/// A list of nothing but refusals admits everything that it does not refuse.
pub proof fn refusals_alone_admit_the_rest(list: Seq<Seq<char>>, value: Seq<char>)
    requires
        forall|i: int| 0 <= i < list.len() ==> (#[trigger] list[i]).len() > 0 && list[i][0] == '!',
        !list.contains(seq!['!'] + value),
    ensures
        list_admits(list, value),
{
    assert forall|i: int| 0 <= i < list.len() implies is_negated(#[trigger] list[i]) by {}
}

/// A list that names something, but not this value, refuses it, unless it is
/// the one word that admits anything.
pub proof fn what_is_not_named_is_refused(list: Seq<Seq<char>>, value: Seq<char>, i: int)
    requires
        0 <= i < list.len(),
        list[i].len() == 0 || list[i][0] != '!',
        !list.contains(value),
        !(list.len() == 1 && list[0] == seq!['a', 'n', 'y']),
    ensures
        !list_admits(list, value),
{
    reveal_strlit("any");
    assert("any"@ =~= seq!['a', 'n', 'y']);
    assert(!is_negated(list[i]));
    if list == seq!["any"@] {
        assert(list.len() == 1 && list[0] == "any"@);
    }
}

/// The one word `any` admits everything.
pub proof fn any_admits_everything(value: Seq<char>)
    ensures
        list_admits(seq![seq!['a', 'n', 'y']], value),
{
    reveal_strlit("any");
    assert("any"@ =~= seq!['a', 'n', 'y']);
    assert(seq![seq!['a', 'n', 'y']] =~= seq!["any"@]);
}

/// A package runs on a platform exactly where each of its lists, on its own,
/// would let it.
pub proof fn both_lists_have_a_say(support: SupportModel, platform: PlatformModel)
    ensures
        support_admits(support, platform) <==> {
            &&& support_admits((SupportModel { cpu: seq![], ..support }), platform)
            &&& support_admits((SupportModel { os: seq![], ..support }), platform)
        },
        support_admits((SupportModel { cpu: seq![], ..support }), platform) <==> list_admits(
            support.os,
            platform.os,
        ),
        support_admits((SupportModel { os: seq![], ..support }), platform) <==> list_admits(
            support.cpu,
            platform.cpu,
        ),
{
}

/// Only the names that differ between the two spellings are changed, each to
/// the one Node has, and no two of Rust's names come to be one of Node's.
pub proof fn node_spellings(os: Seq<char>, cpu: Seq<char>)
    ensures
        os_in_node("macos"@) == "darwin"@,
        os != "macos"@ ==> os_in_node(os) == os,
        cpu_in_node("x86_64"@) == "x64"@,
        cpu_in_node("aarch64"@) == "arm64"@,
        cpu_in_node("x86"@) == "ia32"@,
        cpu != "x86_64"@ && cpu != "aarch64"@ && cpu != "x86"@ ==> cpu_in_node(cpu) == cpu,
{
    reveal_strlit("x86_64");
    reveal_strlit("aarch64");
    reveal_strlit("x86");
    assert("x86_64"@.len() == 6 && "aarch64"@.len() == 7 && "x86"@.len() == 3);
}

} // verus!
