//! What a command line asks for.

use vstd::prelude::*;
use vstd::string::*;
use crate::graph::Kind;
use crate::install::Mode;
use crate::order::Duplicate;
use crate::registry::result_view;
use crate::specifier::{is_plausible_name, plausible};
use crate::text::{cut_first, split_first};

verus! {

/// A parsed command line.
#[derive(Debug)]
pub struct Cli {
    pub command: Command,
}

/// What to do.
#[derive(Debug)]
pub enum Command {
    /// Create a `package.json`.
    Init,
    /// Install what the workspace declares, or add one package to it.
    Install { spec: Option<String>, save_dev: bool, production: bool },
}

/// Why a package spec was refused.
#[derive(Debug)]
pub enum CliError {
    EmptySpec,
    EmptyVersion(String),
    InvalidName(String),
}

/// What a [`CliError`] says.
pub enum CliFault {
    EmptySpec,
    EmptyVersion(Seq<char>),
    InvalidName(Seq<char>),
}

impl DeepView for CliError {
    type V = CliFault;

    open spec fn deep_view(&self) -> CliFault {
        match self {
            CliError::EmptySpec => CliFault::EmptySpec,
            CliError::EmptyVersion(input) => CliFault::EmptyVersion(input@),
            CliError::InvalidName(input) => CliFault::InvalidName(input@),
        }
    }
}

/// Which version was asked for.
#[derive(Debug)]
pub enum VersionSpec {
    Latest,
    Exact(String),
}

/// What a [`VersionSpec`] means.
pub enum VersionAsked {
    Latest,
    Exact(Seq<char>),
}

impl DeepView for VersionSpec {
    type V = VersionAsked;

    open spec fn deep_view(&self) -> VersionAsked {
        match self {
            VersionSpec::Latest => VersionAsked::Latest,
            VersionSpec::Exact(version) => VersionAsked::Exact(version@),
        }
    }
}

impl Duplicate for VersionSpec {
    fn duplicate(&self) -> (copy: Self) {
        match self {
            VersionSpec::Latest => VersionSpec::Latest,
            VersionSpec::Exact(version) => VersionSpec::Exact(version.clone()),
        }
    }
}

/// What is sent to the registry: a version, a range or a dist-tag.
pub open spec fn request_text(asked: VersionAsked) -> Seq<char> {
    match asked {
        VersionAsked::Latest => "latest"@,
        VersionAsked::Exact(version) => version,
    }
}

impl VersionSpec {
    /// What is sent to the registry. Asking for the latest version is asking
    /// for the tag of that name.
    pub fn as_request(&self) -> (request: &str)
        ensures
            request@ == request_text(self.deep_view()),
    {
        match self {
            VersionSpec::Latest => "latest",
            VersionSpec::Exact(version) => version.as_str(),
        }
    }
}

/// A package, and the version of it that was asked for.
#[derive(Debug)]
pub struct PackageSpec {
    pub name: String,
    pub version: VersionSpec,
}

/// What a [`PackageSpec`] means.
pub struct SpecModel {
    pub name: Seq<char>,
    pub version: VersionAsked,
}

impl DeepView for PackageSpec {
    type V = SpecModel;

    open spec fn deep_view(&self) -> SpecModel {
        SpecModel { name: self.name@, version: self.version.deep_view() }
    }
}

/// A spec cut at the `@` between its name and its version. One that opens the
/// spec belongs to a scope.
pub open spec fn spec_halves(input: Seq<char>) -> Option<(Seq<char>, Seq<char>)> {
    if input.len() > 0 && input[0] == '@' {
        match cut_first(input.skip(1), '@') {
            Some((name, version)) => Some((seq!['@'] + name, version)),
            None => None,
        }
    } else {
        cut_first(input, '@')
    }
}

/// What a package spec asks for.
pub open spec fn spec_reading(input: Seq<char>) -> Result<SpecModel, CliFault> {
    if input.len() == 0 {
        Err(CliFault::EmptySpec)
    } else {
        match spec_halves(input) {
            Some((name, version)) => if !plausible(name) {
                Err(CliFault::InvalidName(input))
            } else if version.len() == 0 {
                Err(CliFault::EmptyVersion(input))
            } else {
                Ok(SpecModel { name, version: VersionAsked::Exact(version) })
            },
            None => if !plausible(input) {
                Err(CliFault::InvalidName(input))
            } else {
                Ok(SpecModel { name: input, version: VersionAsked::Latest })
            },
        }
    }
}

/// Check a name: something, and if it opens with a scope, a scope and a
/// package that both are something.
pub fn validate_name(name: &str, input: &str) -> (checked: Result<(), CliError>)
    ensures
        match checked {
            Ok(_) => plausible(name@),
            Err(error) => !plausible(name@) && error.deep_view() == CliFault::InvalidName(input@),
        },
{
    if is_plausible_name(name) {
        Ok(())
    } else {
        Err(CliError::InvalidName(input.to_owned()))
    }
}

/// Split a package spec into a name and the version asked for.
pub fn parse_package_spec(input: &str) -> (spec: Result<PackageSpec, CliError>)
    ensures
        result_view(spec) == spec_reading(input@),
{
    if input.is_empty() {
        return Err(CliError::EmptySpec);
    }
    let n: usize = input.unicode_len();
    let scoped = input.get_char(0) == '@';
    let rest = if scoped {
        input.substring_char(1, n)
    } else {
        input
    };
    assert(scoped ==> rest@ =~= input@.skip(1));
    match split_first(rest, '@') {
        Some((head, version)) => {
            let mut name = String::new();
            if scoped {
                name.push('@');
            }
            name.append(head);
            assert(scoped ==> name@ =~= seq!['@'] + head@);
            assert(!scoped ==> name@ =~= head@);
            match validate_name(name.as_str(), input) {
                Ok(_) => {},
                Err(error) => {
                    return Err(error);
                },
            }
            if version.is_empty() {
                return Err(CliError::EmptyVersion(input.to_owned()));
            }
            Ok(PackageSpec { name, version: VersionSpec::Exact(version.to_owned()) })
        },
        None => {
            match validate_name(input, input) {
                Ok(_) => {},
                Err(error) => {
                    return Err(error);
                },
            }
            Ok(PackageSpec { name: input.to_owned(), version: VersionSpec::Latest })
        },
    }
}

/// What a command comes down to.
#[derive(Debug)]
pub enum Intent {
    /// Create a manifest.
    Create,
    /// Add a package, to a section if one was named.
    Add { spec: PackageSpec, kind: Option<Kind> },
    /// Make the workspace match what it declares.
    Sync(Mode),
}

impl Command {
    /// What this command comes down to. Without `--save-dev` an install names
    /// a package and not a section, and that is not the same instruction as
    /// naming the production one.
    pub fn intent(&self) -> (intent: Result<Intent, CliError>)
        ensures
            match self {
                Command::Init => intent is Ok && intent->Ok_0 is Create,
                Command::Install { spec: Some(spec), save_dev, .. } => match spec_reading(spec@) {
                    Ok(read) => intent is Ok && match intent->Ok_0 {
                        Intent::Add { spec, kind } => spec.deep_view() == read && kind
                            == if *save_dev {
                            Some(Kind::Dev)
                        } else {
                            None
                        },
                        _ => false,
                    },
                    Err(fault) => intent is Err && (intent->Err_0).deep_view() == fault,
                },
                Command::Install { spec: None, production, .. } => intent is Ok && intent->Ok_0
                    == Intent::Sync(
                    if *production {
                        Mode::Production
                    } else {
                        Mode::Develop
                    },
                ),
            },
    {
        match self {
            Command::Init => Ok(Intent::Create),
            Command::Install { spec: Some(spec), save_dev, production: _ } => {
                match parse_package_spec(spec.as_str()) {
                    Ok(spec) => Ok(
                        Intent::Add {
                            spec,
                            kind: if *save_dev {
                                Some(Kind::Dev)
                            } else {
                                None
                            },
                        },
                    ),
                    Err(error) => Err(error),
                }
            },
            Command::Install { spec: None, save_dev: _, production } => Ok(
                Intent::Sync(
                    if *production {
                        Mode::Production
                    } else {
                        Mode::Develop
                    },
                ),
            ),
        }
    }
}

/// A spec without a version reads back as the name it is, at its latest
/// version.
pub proof fn bare_names_ask_for_the_latest(name: Seq<char>)
    requires
        plausible(name),
        !name.skip(1).contains('@'),
        name[0] != '@' ==> !name.contains('@'),
    ensures
        spec_reading(name) == Ok::<SpecModel, CliFault>(
            SpecModel { name, version: VersionAsked::Latest },
        ),
{
}

} // verus!
