//! What an install says about what it did.

use vstd::prelude::*;
use vstd::string::*;
use crate::complaints::{ComplaintModel, UnsatisfiedPeer};
use crate::linker::{BinCollision, Unowned, UnownedReason};
use crate::package_id::rendered;
use crate::platform::{Platform, PlatformModel};

verus! {

/// A number in decimal.
pub open spec fn decimal(n: nat) -> Seq<char>
    decreases n,
{
    let digit = ((n % 10) + 48) as char;
    if n < 10 {
        seq![digit]
    } else {
        decimal(n / 10).push(digit)
    }
}

fn digit_of(value: u8) -> (c: char)
    requires
        value < 10,
    ensures
        c == (value + 48) as char,
{
    (value + 48) as char
}

/// Write a number in decimal.
pub fn in_decimal(n: usize) -> (text: String)
    ensures
        text@ == decimal(n as nat),
    decreases n,
{
    let digit: u8 = (n % 10) as u8;
    let mut text = if n < 10 {
        String::new()
    } else {
        in_decimal(n / 10)
    };
    text.push(digit_of(digit));
    assert(n < 10 ==> text@ =~= decimal(n as nat));
    text
}

/// How many of a thing there are.
pub open spec fn counted(count: nat, noun: Seq<char>) -> Seq<char> {
    if count == 1 {
        "1 "@ + noun
    } else {
        decimal(count) + " "@ + noun + "s"@
    }
}

/// `1 package`, `2 packages`.
pub fn plural(count: usize, noun: &str) -> (text: String)
    ensures
        text@ == counted(count as nat, noun@),
{
    if count == 1 {
        let mut text = "1 ".to_owned();
        text.append(noun);
        text
    } else {
        let mut text = in_decimal(count);
        text.append(" ");
        text.append(noun);
        text.append("s");
        text
    }
}

/// One unmet peer as a sentence. Missing and out of range read differently,
/// because they are different problems with different fixes.
pub open spec fn peer_sentence(peer: ComplaintModel) -> Seq<char> {
    let opening = rendered(peer.dependent) + " wants peer "@ + peer.peer + "@"@ + peer.range;
    match peer.found {
        Some(version) => opening + ", but the nearest provider has "@ + peer.peer + "@"@ + version,
        None => opening + ", which nothing provides"@,
    }
}

/// One unmet peer as the sentence to print.
pub fn peer_warning(peer: &UnsatisfiedPeer) -> (text: String)
    ensures
        text@ == peer_sentence(peer.deep_view()),
{
    let mut text = peer.dependent.to_string();
    text.append(" wants peer ");
    text.append(peer.peer.as_str());
    text.append("@");
    text.append(peer.range.as_str());
    match &peer.found {
        Some(version) => {
            text.append(", but the nearest provider has ");
            text.append(peer.peer.as_str());
            text.append("@");
            text.append(version.as_str());
        },
        None => {
            text.append(", which nothing provides");
        },
    }
    text
}

/// One entry that was left alone as the sentence to print.
pub fn unowned_warning(entry: &Unowned) -> (text: String)
    ensures
        text@ == "left "@ + entry.path@ + match entry.reason {
            UnownedReason::NotASymlink => " alone — jerky did not create it"@,
            UnownedReason::PointsOutside => " alone — it links outside this workspace"@,
        },
{
    let mut text = "left ".to_owned();
    text.append(entry.path.as_str());
    match entry.reason {
        UnownedReason::NotASymlink => {
            text.append(" alone — jerky did not create it");
        },
        UnownedReason::PointsOutside => {
            text.append(" alone — it links outside this workspace");
        },
    }
    text
}

/// What to say of the optional packages that a platform did not take: how
/// many, and nothing where there are none.
pub open spec fn skipped_sentence(count: nat, platform: PlatformModel) -> Option<Seq<char>> {
    if count == 0 {
        None
    } else {
        Some(
            "skipped "@ + counted(count, "optional package"@) + " unsupported on "@ + (platform.os
                + "-"@ + platform.cpu),
        )
    }
}

/// What to say of the optional packages that this machine did not take.
pub fn skipped_line(count: usize, platform: &Platform) -> (text: Option<String>)
    ensures
        match text {
            Some(text) => skipped_sentence(count as nat, platform.deep_view()) == Some(text@),
            None => skipped_sentence(count as nat, platform.deep_view()) is None,
        },
{
    if count == 0 {
        return None;
    }
    let mut text = "skipped ".to_owned();
    text.append(plural(count, "optional package").as_str());
    text.append(" unsupported on ");
    text.append(platform.to_string().as_str());
    Some(text)
}

/// The sentence that says which of two packages got the name of an entry point
/// that both publish.
pub open spec fn collision_sentence(
    winner: Seq<char>,
    loser: Seq<char>,
    name: Seq<char>,
    bin_dir: Seq<char>,
) -> Seq<char> {
    winner + " and "@ + loser + " both publish a `"@ + name + "` binary — "@ + bin_dir
        + " links "@ + winner + "'s"@
}

/// The sentence that says which of two packages got the name of an entry point
/// that both publish.
pub fn collision_warning(collision: &BinCollision) -> (text: String)
    ensures
        text@ == collision_sentence(
            collision.winner@,
            collision.loser@,
            collision.name@,
            collision.bin_dir@,
        ),
{
    let mut text = collision.winner.clone();
    text.append(" and ");
    text.append(collision.loser.as_str());
    text.append(" both publish a `");
    text.append(collision.name.as_str());
    text.append("` binary — ");
    text.append(collision.bin_dir.as_str());
    text.append(" links ");
    text.append(collision.winner.as_str());
    text.append("'s");
    text
}

/// What to say of a `workspaces` pattern that matched nothing.
pub fn pattern_warning(pattern: &str) -> (text: String)
    ensures
        text@ == "workspace pattern `"@ + pattern@ + "` matched no package"@,
{
    let mut text = "workspace pattern `".to_owned();
    text.append(pattern);
    text.append("` matched no package");
    text
}

/// What to say of a package that was added to a project.
pub fn added_line(name: &str, version: &str, importer: &str) -> (text: String)
    ensures
        text@ == "added "@ + name@ + "@"@ + version@ + " to "@ + importer@,
{
    let mut text = "added ".to_owned();
    text.append(name);
    text.append("@");
    text.append(version);
    text.append(" to ");
    text.append(importer);
    text
}

/// What to say of a whole workspace that was installed: how many packages, and
/// not how many links, which would be more wherever projects share one.
pub fn installed_line(packages: usize, importers: usize) -> (text: String)
    ensures
        text@ == "installed "@ + counted(packages as nat, "package"@) + " across "@ + counted(
            importers as nat,
            "importer"@,
        ),
{
    let mut text = "installed ".to_owned();
    text.append(plural(packages, "package").as_str());
    text.append(" across ");
    text.append(plural(importers, "importer").as_str());
    text
}

} // verus!
